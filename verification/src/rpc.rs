//! Request/reply scaffolding: the address registry that decides which
//! binds and unbinds take effect. The transport serving each bound
//! address lives with the surrounding service; the registry is
//! dependency-injected so independent instances never share state.

use vstd::prelude::*;
use crate::text::vec_char_eq;
use crate::text::vec_chars;

verus! {

/// Why a bind is refused.
#[derive(Clone, Copy, Debug, PartialEq, Eq, Structural)]
pub enum RpcError {
    AddressInUse,
}

/// The addresses currently bound to a server.
pub struct RpcRegistry {
    bound: Vec<String>,
}

impl RpcRegistry {
    /// The bound addresses.
    pub closed spec fn model(self) -> Seq<String> {
        self.bound@
    }

    /// `addr` is bound.
    pub open spec fn has_addr(self, addr: Seq<char>) -> bool {
        exists|i: int| 0 <= i < self.model().len() && #[trigger] self.model()[i]@ == addr
    }

    /// Addresses are bound at most once.
    pub open spec fn wf(self) -> bool {
        forall|i: int, j: int|
            0 <= i < self.model().len() && 0 <= j < self.model().len() && i != j
                ==> self.model()[i]@ != self.model()[j]@
    }

    /// An empty registry.
    pub fn new() -> (r: RpcRegistry)
        ensures
            r.wf(),
            r.model().len() == 0,
    {
        RpcRegistry { bound: Vec::new() }
    }

    fn find(&self, addr: &Vec<char>) -> (r: Option<usize>)
        ensures
            match r {
                Some(i) => i < self.model().len() && self.model()[i as int]@ == addr@,
                None => !self.has_addr(addr@),
            },
    {
        let n: usize = self.bound.len();
        let mut i: usize = 0;
        while i < n
            invariant
                i <= n,
                n == self.model().len(),
                forall|j: int| 0 <= j < i ==> self.model()[j]@ != addr@,
            decreases n - i,
        {
            let bv = vec_chars(self.bound[i].as_str());
            if vec_char_eq(&bv, addr) {
                return Some(i);
            }
            i = i + 1;
        }
        None
    }
}

/// Register a server at `addr`; an address already bound is refused.
pub fn bind_server(reg: &mut RpcRegistry, addr: &str) -> (r: Result<(), RpcError>)
    requires
        old(reg).wf(),
    ensures
        final(reg).wf(),
        r is Ok <==> !old(reg).has_addr(addr@),
        r is Err ==> r == Err::<(), RpcError>(RpcError::AddressInUse) && final(reg).model() == old(
            reg,
        ).model(),
        final(reg).has_addr(addr@),
        forall|a2: Seq<char>|
            a2 != addr@ ==> (final(reg).has_addr(a2) <==> old(reg).has_addr(a2)),
{
    let av = vec_chars(addr);
    match reg.find(&av) {
        Some(i) => {
            proof {
                assert(reg.model()[i as int]@ == addr@);
            }
            Err(RpcError::AddressInUse)
        },
        None => {
            let ghost pre = reg.model();
            reg.bound.push(addr.to_owned());
            proof {
                assert(reg.model()[pre.len() as int]@ == addr@);
                assert forall|x: int, y: int|
                    0 <= x < reg.model().len() && 0 <= y < reg.model().len() && x
                        != y implies reg.model()[x]@ != reg.model()[y]@ by {
                    if x < pre.len() && y < pre.len() {
                        assert(pre[x]@ != pre[y]@);
                    } else if x == pre.len() {
                        assert(reg.model()[y]@ == pre[y]@);
                        assert(reg.model()[x]@ == addr@);
                    } else {
                        assert(reg.model()[x]@ == pre[x]@);
                        assert(reg.model()[y]@ == addr@);
                    }
                }
                assert forall|a2: Seq<char>|
                    a2 != addr@ implies (reg.has_addr(a2) <==> old(reg).has_addr(a2)) by {
                    if reg.has_addr(a2) {
                        let i2 = choose|i2: int|
                            0 <= i2 < reg.model().len() && #[trigger] reg.model()[i2]@ == a2;
                        if i2 < pre.len() {
                            assert(pre[i2]@ == a2);
                        }
                    }
                    if old(reg).has_addr(a2) {
                        let i2 = choose|i2: int|
                            0 <= i2 < pre.len() && #[trigger] pre[i2]@ == a2;
                        assert(reg.model()[i2]@ == a2);
                    }
                }
            }
            Ok(())
        },
    }
}

/// Unbind the server at `addr`; tells whether one was removed.
pub fn unbind_server(reg: &mut RpcRegistry, addr: &str) -> (r: bool)
    requires
        old(reg).wf(),
    ensures
        final(reg).wf(),
        r == old(reg).has_addr(addr@),
        !final(reg).has_addr(addr@),
        forall|a2: Seq<char>|
            a2 != addr@ ==> (final(reg).has_addr(a2) <==> old(reg).has_addr(a2)),
{
    let av = vec_chars(addr);
    match reg.find(&av) {
        None => {
            proof {
                assert(!old(reg).has_addr(addr@));
            }
            false
        },
        Some(i) => {
            let ghost pre = reg.model();
            let _removed = reg.bound.swap_remove(i);
            proof {
                let le: int = pre.len() as int;
                assert(reg.model() =~= pre.update(i as int, pre[le - 1]).drop_last());
                assert forall|x: int, y: int|
                    0 <= x < reg.model().len() && 0 <= y < reg.model().len() && x
                        != y implies reg.model()[x]@ != reg.model()[y]@ by {
                    let ghost ex = if x == i as int {
                        pre[le - 1]
                    } else {
                        pre[x]
                    };
                    let ghost ey = if y == i as int {
                        pre[le - 1]
                    } else {
                        pre[y]
                    };
                    assert(reg.model()[x] == ex && reg.model()[y] == ey);
                }
                assert forall|a2: Seq<char>|
                    a2 != addr@ implies (reg.has_addr(a2) <==> old(reg).has_addr(a2)) by {
                    if reg.has_addr(a2) {
                        let i2 = choose|i2: int|
                            0 <= i2 < reg.model().len() && #[trigger] reg.model()[i2]@ == a2;
                        if i2 == i as int {
                            assert(pre[le - 1]@ == a2);
                        } else {
                            assert(pre[i2]@ == a2);
                        }
                    }
                    if old(reg).has_addr(a2) {
                        let i2 = choose|i2: int|
                            0 <= i2 < pre.len() && #[trigger] pre[i2]@ == a2;
                        if i2 == i as int {
                            assert(pre[i2]@ == addr@);
                        } else if i2 == le - 1 {
                            if i as int != le - 1 {
                                assert(reg.model()[i as int]@ == a2);
                            }
                        } else {
                            assert(reg.model()[i2]@ == a2);
                        }
                    }
                }
                assert forall|i2: int|
                    0 <= i2 < reg.model().len() implies reg.model()[i2]@ != addr@ by {
                    if i2 == i as int {
                        if i as int != le - 1 {
                            assert(reg.model()[i2] == pre[le - 1]);
                            assert(pre[le - 1]@ != pre[i as int]@);
                        }
                    } else {
                        assert(reg.model()[i2] == pre[i2]);
                        assert(pre[i2]@ != pre[i as int]@);
                    }
                }
            }
            true
        },
    }
}

} // verus!
