use vstd::prelude::*;
use vstd::string::StringSliceAdditionalSpecFns;
use vstd::utf8::is_char_boundary;

verus! {

/// Relies on `str::split_at_mut`: the two halves hold the bytes before and
/// after `mid`, and together they are the whole string, so that once they are
/// released the string holds what they hold; it panics unless `mid` is on a
/// character boundary.
pub assume_specification[ str::split_at_mut ](s: &mut str, mid: usize) -> (res: (&mut str, &mut str))
    requires
        is_char_boundary(old(s).spec_bytes(), mid as int),
    ensures
        res.0.spec_bytes() == old(s).spec_bytes().subrange(0, mid as int),
        res.1.spec_bytes() == old(s).spec_bytes().subrange(mid as int, old(s).spec_bytes().len() as int),
        final(s).spec_bytes() == final(res.0).spec_bytes() + final(res.1).spec_bytes(),
;

/// Splitting a string at a byte offset counted from its end.
pub trait StrExt {
    /// The bytes of the string.
    spec fn byte_seq(&self) -> Seq<u8>;

    /// Splits off the last `i` bytes: `(head, tail)` with `tail` of length `i`.
    fn rsplit_at(&self, i: usize) -> (r: (&str, &str))
        requires
            i <= self.byte_seq().len(),
            is_char_boundary(self.byte_seq(), self.byte_seq().len() - i),
        ensures
            r.0.spec_bytes() == self.byte_seq().subrange(0, self.byte_seq().len() - i),
            r.1.spec_bytes() == self.byte_seq().subrange(
                self.byte_seq().len() - i,
                self.byte_seq().len() as int,
            ),
    ;

    /// Like `rsplit_at`, with both halves mutable. The string afterwards is
    /// the two halves joined: the call itself changes no byte.
    fn rsplit_at_mut(&mut self, i: usize) -> (r: (&mut str, &mut str))
        requires
            i <= old(self).byte_seq().len(),
            is_char_boundary(old(self).byte_seq(), old(self).byte_seq().len() - i),
        ensures
            r.0.spec_bytes() == old(self).byte_seq().subrange(0, old(self).byte_seq().len() - i),
            r.1.spec_bytes() == old(self).byte_seq().subrange(
                old(self).byte_seq().len() - i,
                old(self).byte_seq().len() as int,
            ),
            final(self).byte_seq() == final(r.0).spec_bytes() + final(r.1).spec_bytes(),
    ;
}

impl StrExt for str {
    open spec fn byte_seq(&self) -> Seq<u8> {
        self.spec_bytes()
    }

    fn rsplit_at(&self, i: usize) -> (r: (&str, &str)) {
        let n = self.as_bytes().len();
        self.split_at(n - i)
    }

    fn rsplit_at_mut(&mut self, i: usize) -> (r: (&mut str, &mut str)) {
        let n = self.as_bytes().len();
        self.split_at_mut(n - i)
    }
}

} // verus!
