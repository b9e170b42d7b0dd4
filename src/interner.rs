use lasso::{Key, Rodeo, Spur};
use vstd::prelude::*;

verus! {

#[verifier::external_type_specification]
#[verifier::external_body]
#[verifier::reject_recursive_types(K)]
#[verifier::reject_recursive_types(S)]
pub struct ExRodeo<K, S>(Rodeo<K, S>);

#[verifier::external_type_specification]
#[verifier::external_body]
pub struct ExSpur(Spur);

/// The strings a `Rodeo` holds, in the order of their keys.
pub uninterp spec fn interned(r: Rodeo) -> Seq<Seq<char>>;

/// Relies on `Rodeo::new`: a new interner holds no strings.
#[verifier::external_body]
fn rodeo_new() -> (r: Rodeo)
    ensures
        interned(r) == Seq::<Seq<char>>::empty(),
{
    Rodeo::new()
}

/// Relies on `Rodeo::get_or_intern` and `Spur::into_usize`: a string
/// already held keeps its key; a new one is pushed and gets the next key.
/// It panics once `u32::MAX - 1` strings are held, which `requires` leaves out.
#[verifier::external_body]
fn rodeo_intern(r: &mut Rodeo, s: &str) -> (k: usize)
    requires
        interned(*old(r)).len() < u32::MAX - 1,
    ensures
        ({
            let before = interned(*old(r));
            let after = interned(*final(r));
            if exists|i: int| 0 <= i < before.len() && before[i] == s@ {
                &&& after == before
                &&& k < before.len()
                &&& before[k as int] == s@
            } else {
                &&& after == before.push(s@)
                &&& k == before.len()
            }
        }),
{
    r.get_or_intern(s).into_usize()
}

/// Relies on `Rodeo::resolve` and `Spur::try_from_usize`: the string held
/// under a key.
#[verifier::external_body]
fn rodeo_resolve(r: &Rodeo, k: usize) -> (s: &str)
    requires
        k < interned(*r).len(),
    ensures
        s@ == interned(*r)[k as int],
{
    r.resolve(&Spur::try_from_usize(k).unwrap())
}

/// An append-only table of identifier names. Each name is held once, under
/// a small integer key that stands for it.
pub struct Interner {
    rodeo: Rodeo,
}

impl Interner {
    /// The names held, in the order of their keys.
    pub closed spec fn names(&self) -> Seq<Seq<char>> {
        interned(self.rodeo)
    }

    pub fn new() -> (r: Interner)
        ensures
            r.names() == Seq::<Seq<char>>::empty(),
    {
        Interner { rodeo: rodeo_new() }
    }

    /// The key of `name`, adding it if it is not held yet.
    pub fn intern(&mut self, name: &str) -> (k: usize)
        requires
            old(self).names().len() < u32::MAX - 1,
        ensures
            old(self).names().is_prefix_of(final(self).names()),
            k < final(self).names().len(),
            final(self).names()[k as int] == name@,
            final(self).names().len() <= old(self).names().len() + 1,
            old(self).names().contains(name@) ==> final(self).names() == old(self).names(),
            !old(self).names().contains(name@) ==> final(self).names() == old(self).names().push(name@),
    {
        let k = rodeo_intern(&mut self.rodeo, name);
        proof {
            let before = old(self).names();
            if exists|i: int| 0 <= i < before.len() && before[i] == name@ {
            } else {
                assert(before.is_prefix_of(before.push(name@)));
            }
        }
        k
    }

    /// The name held under `k`.
    pub fn resolve(&self, k: usize) -> (r: &str)
        requires
            k < self.names().len(),
        ensures
            r@ == self.names()[k as int],
    {
        rodeo_resolve(&self.rodeo, k)
    }

    /// How many names are held.
    pub fn len(&self) -> (r: usize)
        ensures
            r == self.names().len(),
    {
        rodeo_len(&self.rodeo)
    }
}

/// Relies on `Rodeo::len`: the number of strings held.
#[verifier::external_body]
fn rodeo_len(r: &Rodeo) -> (n: usize)
    ensures
        n == interned(*r).len(),
{
    r.len()
}

} // verus!
