use vstd::prelude::*;
use vstd::string::StringSliceAdditionalSpecFns;

verus! {

/// One atom of a key.
pub type Key = u8;

/// A value that can stand as a key: it spells a sequence of atoms.
///
/// Byte strings spell their bytes, and strings the bytes of their UTF-8 form.
pub trait Atoms {
    /// The atoms that the value spells.
    spec fn atoms(&self) -> Seq<Key>;

    /// The atoms that the value spells, borrowed from it.
    fn as_atoms(&self) -> (s: &[Key])
        ensures
            s@ == self.atoms(),
    ;
}

impl<const N: usize> Atoms for [Key; N] {
    open spec fn atoms(&self) -> Seq<Key> {
        self@
    }

    fn as_atoms(&self) -> (s: &[Key]) {
        self.as_slice()
    }
}

impl Atoms for [Key] {
    open spec fn atoms(&self) -> Seq<Key> {
        self@
    }

    fn as_atoms(&self) -> (s: &[Key]) {
        self
    }
}

impl Atoms for str {
    open spec fn atoms(&self) -> Seq<Key> {
        self.spec_bytes()
    }

    fn as_atoms(&self) -> (s: &[Key]) {
        self.as_bytes()
    }
}

impl Atoms for Vec<Key> {
    open spec fn atoms(&self) -> Seq<Key> {
        self@
    }

    fn as_atoms(&self) -> (s: &[Key]) {
        self.as_slice()
    }
}

impl Atoms for String {
    open spec fn atoms(&self) -> Seq<Key> {
        vstd::utf8::encode_utf8(self@)
    }

    fn as_atoms(&self) -> (s: &[Key]) {
        self.as_str().as_bytes()
    }
}

impl<'a, T: Atoms + ?Sized> Atoms for &'a T {
    open spec fn atoms(&self) -> Seq<Key> {
        (**self).atoms()
    }

    fn as_atoms(&self) -> (s: &[Key]) {
        (**self).as_atoms()
    }
}

} // verus!
