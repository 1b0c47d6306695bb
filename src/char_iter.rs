use vstd::prelude::*;

use std::ops::{Range, RangeInclusive};

verus! {

/// Whether `v` is the code point of a `char`.
pub open spec fn is_char_code(v: u32) -> bool {
    v <= 0xD7FF || (0xE000 <= v && v <= 0x10FFFF)
}

/// The code point of a char is a code point of a char.
proof fn lemma_char_code(c: char)
    ensures
        is_char_code(c as u32),
{
    vstd::utf8::char_is_scalar(c);
}

/// The code point of the greatest char below the char whose code point is `c`.
pub open spec fn prev_code(c: u32) -> u32 {
    if c == 0xE000 {
        0xD7FF
    } else {
        (c - 1) as u32
    }
}

/// The code point of the least char above the char whose code point is `c`.
pub open spec fn next_code(c: u32) -> u32 {
    if c == 0xD7FF {
        0xE000
    } else {
        (c + 1) as u32
    }
}

/// Relies on `char::from_u32`: `Some` exactly for the code points of chars.
#[verifier::external_body]
fn char_from_u32(v: u32) -> (r: Option<char>)
    ensures
        r is Some <==> is_char_code(v),
        r matches Some(c) ==> c as u32 == v,
{
    char::from_u32(v)
}

/// Relies on `RangeInclusive::start`: the lower bound of the range.
pub assume_specification<Idx>[ RangeInclusive::<Idx>::start ](r: &RangeInclusive<Idx>) -> (s: &Idx)
    ensures
        *s == r@.start,
;

/// Relies on `RangeInclusive::end`: the upper bound of the range, which is unspecified once
/// the range has been iterated to exhaustion.
pub assume_specification<Idx>[ RangeInclusive::<Idx>::end ](r: &RangeInclusive<Idx>) -> (e: &Idx)
    ensures
        !r@.exhausted ==> *e == r@.end,
;

/// A range of chars: `a..b` or `a..=b`.
pub trait RangeMarker {
    /// The first char, the end bound, and whether the end bound is included.
    spec fn bounds_of(&self) -> (char, char, bool);

    /// The bounds can be read.
    spec fn readable(&self) -> bool;

    fn bounds(&self) -> (r: (char, char, bool))
        requires
            self.readable(),
        ensures
            r == self.bounds_of(),
    ;
}

impl RangeMarker for Range<char> {
    open spec fn bounds_of(&self) -> (char, char, bool) {
        (self.start, self.end, false)
    }

    open spec fn readable(&self) -> bool {
        true
    }

    fn bounds(&self) -> (r: (char, char, bool)) {
        (self.start, self.end, false)
    }
}

impl RangeMarker for RangeInclusive<char> {
    open spec fn bounds_of(&self) -> (char, char, bool) {
        (self@.start, self@.end, true)
    }

    open spec fn readable(&self) -> bool {
        !self@.exhausted
    }

    fn bounds(&self) -> (r: (char, char, bool)) {
        (*self.start(), *self.end(), true)
    }
}

/// Iterates the chars of a range, forwards or backwards, skipping the code points that
/// are not chars.
#[derive(Debug, PartialEq, Eq)]
pub struct CharIter {
    start: u32,
    end: u32,
}

impl View for CharIter {
    /// The code points of the next char from the front and of the next from the back.
    type V = (u32, u32);

    closed spec fn view(&self) -> (u32, u32) {
        (self.start, self.end)
    }
}

impl CharIter {
    #[verifier::type_invariant]
    spec fn codes_valid(&self) -> bool {
        is_char_code(self.start) && is_char_code(self.end)
    }

    /// Starts at the first char of `r` and ends at its last: the end bound itself where
    /// it is included, else the char before it.
    pub fn new<R: RangeMarker>(r: R) -> (it: CharIter)
        requires
            r.readable(),
            !r.bounds_of().2 ==> r.bounds_of().1 != '\0',
        ensures
            it@.0 == r.bounds_of().0 as u32,
            r.bounds_of().2 ==> it@.1 == r.bounds_of().1 as u32,
            !r.bounds_of().2 ==> it@.1 == prev_code(r.bounds_of().1 as u32),
    {
        let (first, bound, included) = r.bounds();
        proof {
            lemma_char_code(first);
            lemma_char_code(bound);
        }
        let start = first as u32;
        let end = if included {
            bound as u32
        } else {
            CharIter::prev_char(bound) as u32
        };
        CharIter { start, end }
    }

    /// The greatest char below `c`.
    pub fn prev_char(c: char) -> (p: char)
        requires
            c != '\0',
        ensures
            (p as u32) < (c as u32),
            forall|v: u32| (p as u32) < v < (c as u32) ==> !is_char_code(v),
            p as u32 == prev_code(c as u32),
    {
        let mut v: u32 = c as u32 - 1;
        loop
            invariant
                v < c as u32,
                forall|w: u32| v < w < (c as u32) ==> !is_char_code(w),
            decreases v,
        {
            match char_from_u32(v) {
                Some(p) => {
                    proof {
                        lemma_char_code(p);
                        lemma_char_code(c);
                        CharIter::lemma_prev_unique(c, p);
                    }
                    return p;
                },
                None => {
                    v = v - 1;
                },
            }
        }
    }

    proof fn lemma_prev_unique(c: char, p: char)
        requires
            (p as u32) < (c as u32),
            forall|v: u32| (p as u32) < v < (c as u32) ==> !is_char_code(v),
        ensures
            p as u32 == prev_code(c as u32),
    {
        lemma_char_code(p);
        lemma_char_code(c);
        let q = prev_code(c as u32);
        assert(is_char_code(q));
        if (p as u32) < q {
            assert(!is_char_code(q));
        }
    }

    /// The least char above `c`.
    pub fn next_char(c: char) -> (n: char)
        requires
            (c as u32) < 0x10FFFF,
        ensures
            (c as u32) < (n as u32),
            forall|v: u32| (c as u32) < v < (n as u32) ==> !is_char_code(v),
            n as u32 == next_code(c as u32),
    {
        let mut v: u32 = c as u32 + 1;
        loop
            invariant
                (c as u32) < v <= 0x10FFFF,
                forall|w: u32| (c as u32) < w < v ==> !is_char_code(w),
            decreases 0x10FFFF - v,
        {
            match char_from_u32(v) {
                Some(n) => {
                    proof {
                        lemma_char_code(n);
                        lemma_char_code(c);
                    }
                    assert(is_char_code(c as u32) && is_char_code(n as u32));
                    assert(is_char_code(next_code(c as u32)));
                    return n;
                },
                None => {
                    v = v + 1;
                },
            }
        }
    }

    /// The code point of the next char from the front.
    pub fn start(&self) -> (r: u32)
        ensures
            r == self@.0,
    {
        self.start
    }

    /// The code point of the next char from the back.
    pub fn end(&self) -> (r: u32)
        ensures
            r == self@.1,
    {
        self.end
    }

    /// Takes the next char from the front; `None` once the front has passed the back.
    pub fn next(&mut self) -> (r: Option<char>)
        requires
            old(self)@.0 <= old(self)@.1 ==> old(self)@.0 < 0x10FFFF,
        ensures
            old(self)@.0 > old(self)@.1 ==> r is None && final(self)@ == old(self)@,
            old(self)@.0 <= old(self)@.1 ==> (r matches Some(c) && c as u32 == old(self)@.0
                && final(self)@ == (next_code(old(self)@.0), old(self)@.1)),
    {
        proof {
            use_type_invariant(&*self);
        }
        if self.start > self.end {
            return None;
        }
        let cur = char_from_u32(self.start).unwrap();
        self.start = CharIter::next_char(cur) as u32;
        Some(cur)
    }

    /// Takes the next char from the back; `None` once the back has passed the front.
    pub fn next_back(&mut self) -> (r: Option<char>)
        requires
            old(self)@.1 >= old(self)@.0 ==> old(self)@.1 > 0,
        ensures
            old(self)@.1 < old(self)@.0 ==> r is None && final(self)@ == old(self)@,
            old(self)@.1 >= old(self)@.0 ==> (r matches Some(c) && c as u32 == old(self)@.1
                && final(self)@ == (old(self)@.0, prev_code(old(self)@.1))),
    {
        proof {
            use_type_invariant(&*self);
        }
        if self.end < self.start {
            return None;
        }
        let cur = char_from_u32(self.end).unwrap();
        self.end = CharIter::prev_char(cur) as u32;
        Some(cur)
    }
}

} // verus!
