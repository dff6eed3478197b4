use vstd::prelude::*;
use vstd::string::{StringExecFns, StringSliceAdditionalSpecFns};
use vstd::utf8::{encode_scalar, encode_utf8, is_char_boundary};

use crate::ext::StrExt;
use crate::position::Position;

verus! {

/// The smaller of two word lengths: the bound on an overlap between them.
pub open spec fn min_len(a: Seq<u8>, b: Seq<u8>) -> int {
    if a.len() <= b.len() {
        a.len() as int
    } else {
        b.len() as int
    }
}

/// Splits `given` and `found` for an overlap of `k` bytes at alignment `pos`,
/// giving `(isect, rem_given, rem_found)` when the two overlapping pieces are
/// equal and both cuts fall on character boundaries.
///
/// `Left`: the overlap is the suffix of `given` and the prefix of `found`.
/// `Right`: the overlap is the prefix of `given` and the suffix of `found`.
pub open spec fn fracture_spec(given: Seq<u8>, found: Seq<u8>, pos: Position, k: int) -> Option<
    (Seq<u8>, Seq<u8>, Seq<u8>),
> {
    match pos {
        Position::Left => {
            let cut = given.len() - k;
            if is_char_boundary(given, cut) && is_char_boundary(found, k) && given.subrange(
                cut,
                given.len() as int,
            ) == found.subrange(0, k) {
                Some(
                    (
                        given.subrange(cut, given.len() as int),
                        given.subrange(0, cut),
                        found.subrange(k, found.len() as int),
                    ),
                )
            } else {
                None
            }
        },
        Position::Right => {
            let cut = found.len() - k;
            if is_char_boundary(found, cut) && is_char_boundary(given, k) && given.subrange(0, k)
                == found.subrange(cut, found.len() as int) {
                Some(
                    (
                        given.subrange(0, k),
                        given.subrange(k, given.len() as int),
                        found.subrange(0, cut),
                    ),
                )
            } else {
                None
            }
        },
    }
}

/// Whether `a[ai..ai + n]` and `b[bi..bi + n]` hold the same bytes.
fn segments_equal(a: &[u8], ai: usize, b: &[u8], bi: usize, n: usize) -> (r: bool)
    requires
        ai + n <= a@.len(),
        bi + n <= b@.len(),
    ensures
        r == (a@.subrange(ai as int, ai + n) == b@.subrange(bi as int, bi + n)),
{
    let alen = a.len();
    let blen = b.len();
    let mut j: usize = 0;
    while j < n
        invariant
            j <= n,
            alen == a@.len(),
            blen == b@.len(),
            ai + n <= a@.len(),
            bi + n <= b@.len(),
            a@.subrange(ai as int, ai + j) == b@.subrange(bi as int, bi + j),
        decreases n - j,
    {
        if a[ai + j] != b[bi + j] {
            assert(a@.subrange(ai as int, ai + n)[j as int] != b@.subrange(bi as int, bi + n)[j as int]);
            return false;
        }
        assert(a@.subrange(ai as int, ai + j + 1) =~= a@.subrange(ai as int, ai + j).push(a@[ai + j]));
        assert(b@.subrange(bi as int, bi + j + 1) =~= b@.subrange(bi as int, bi + j).push(b@[bi + j]));
        j = j + 1;
    }
    true
}

/// A word to stitch (the given word or one of its expansions) and a
/// dictionary word to stitch it with.
#[derive(Debug, Clone, Copy)]
pub struct Pairing<'a> {
    pub given: &'a str,
    pub found: &'a str,
}

impl<'a> Pairing<'a> {
    /// The longest overlap that would still leave room in both words.
    pub fn max_isect_len(&self) -> (r: usize)
        ensures
            r == min_len(self.given.spec_bytes(), self.found.spec_bytes()),
    {
        let g = self.given.as_bytes().len();
        let f = self.found.as_bytes().len();
        if g <= f {
            g
        } else {
            f
        }
    }
}

/// A pairing together with the alignment of its two words.
#[derive(Debug, Clone, Copy)]
pub struct Transform<'a> {
    pub pair: Pairing<'a>,
    pub pos: Position,
}

impl<'a> Transform<'a> {
    pub open spec fn given_bytes(&self) -> Seq<u8> {
        self.pair.given.spec_bytes()
    }

    pub open spec fn found_bytes(&self) -> Seq<u8> {
        self.pair.found.spec_bytes()
    }

    /// Splits both words for an overlap of `isect_len` bytes into the
    /// intersection, the rest of the given word and the rest of the found
    /// word, if the overlapping pieces agree.
    pub fn fracture(&self, isect_len: usize) -> (r: Option<(&'a str, &'a str, &'a str)>)
        requires
            1 <= isect_len < min_len(self.given_bytes(), self.found_bytes()),
        ensures
            match r {
                Some(t) => fracture_spec(self.given_bytes(), self.found_bytes(), self.pos, isect_len as int)
                    == Some((t.0.spec_bytes(), t.1.spec_bytes(), t.2.spec_bytes())),
                None => fracture_spec(self.given_bytes(), self.found_bytes(), self.pos, isect_len as int)
                    is None,
            },
    {
        let given = self.pair.given;
        let found = self.pair.found;
        let gb = given.as_bytes();
        let fb = found.as_bytes();
        let glen = gb.len();
        let flen = fb.len();
        match self.pos {
            Position::Left => {
                let cut = glen - isect_len;
                if !given.is_char_boundary(cut) || !found.is_char_boundary(isect_len) {
                    return None;
                }
                if !segments_equal(gb, cut, fb, 0, isect_len) {
                    return None;
                }
                let (rgiven, igiven) = given.rsplit_at(isect_len);
                let (_ifound, rfound) = found.split_at(isect_len);
                Some((igiven, rgiven, rfound))
            },
            Position::Right => {
                let cut = flen - isect_len;
                if !found.is_char_boundary(cut) || !given.is_char_boundary(isect_len) {
                    return None;
                }
                if !segments_equal(gb, 0, fb, cut, isect_len) {
                    return None;
                }
                let (rfound, _ifound) = found.rsplit_at(isect_len);
                let (igiven, rgiven) = given.split_at(isect_len);
                Some((igiven, rgiven, rfound))
            },
        }
    }

    /// Every stitch of the transform, shortest overlap first.
    pub fn stitches(self) -> (r: Vec<Stitch<'a>>)
        ensures
            stitch_views(r@) == stitches_spec(self.given_bytes(), self.found_bytes(), self.pos),
    {
        let max = self.pair.max_isect_len();
        let mut out: Vec<Stitch<'a>> = Vec::new();
        if max <= 1 {
            assert(stitch_views(out@) =~= stitches_upto(self.given_bytes(), self.found_bytes(), self.pos, max as int));
            return out;
        }
        let mut k: usize = 1;
        while k < max
            invariant
                1 <= k <= max,
                max == min_len(self.given_bytes(), self.found_bytes()),
                stitch_views(out@) == stitches_upto(self.given_bytes(), self.found_bytes(), self.pos, k as int),
            decreases max - k,
        {
            let ghost before = out@;
            match Stitch::new(self, k) {
                Some(st) => {
                    out.push(st);
                    assert(stitch_views(out@) =~= stitch_views(before) + seq![st@]);
                },
                None => {},
            }
            k = k + 1;
        }
        out
    }
}

/// The views of a sequence of stitches.
pub open spec fn stitch_views<'a>(v: Seq<Stitch<'a>>) -> Seq<StitchView> {
    v.map_values(|s: Stitch<'a>| s@)
}

/// A stitch in the terms of the bytes of its words.
pub struct StitchView {
    pub given: Seq<u8>,
    pub found: Seq<u8>,
    pub pos: Position,
    pub isect: Seq<u8>,
    pub rem_given: Seq<u8>,
    pub rem_found: Seq<u8>,
}

/// The stitch of overlap `k`, if the words agree there: zero or one item.
pub open spec fn stitch_at(given: Seq<u8>, found: Seq<u8>, pos: Position, k: int) -> Seq<StitchView> {
    match fracture_spec(given, found, pos, k) {
        Some(t) => seq![
            StitchView { given, found, pos, isect: t.0, rem_given: t.1, rem_found: t.2 },
        ],
        None => seq![],
    }
}

/// The stitches of every overlap length from 1 up to, not including, `n`,
/// shortest overlap first.
pub open spec fn stitches_upto(given: Seq<u8>, found: Seq<u8>, pos: Position, n: int) -> Seq<
    StitchView,
>
    decreases n,
{
    if n <= 1 {
        seq![]
    } else {
        stitches_upto(given, found, pos, n - 1) + stitch_at(given, found, pos, n - 1)
    }
}

/// Every stitch of two words at one alignment: overlaps shorter than both words.
pub open spec fn stitches_spec(given: Seq<u8>, found: Seq<u8>, pos: Position) -> Seq<StitchView> {
    stitches_upto(given, found, pos, min_len(given, found))
}

/// A stitch whose pieces are what `fracture_spec` makes of its words for an
/// overlap as long as its intersection.
pub open spec fn stitch_wf(s: StitchView) -> bool {
    1 <= s.isect.len() < min_len(s.given, s.found) && fracture_spec(
        s.given,
        s.found,
        s.pos,
        s.isect.len() as int,
    ) == Some((s.isect, s.rem_given, s.rem_found))
}

/// The dictionary as the bytes of its words.
pub open spec fn dict_of(words: Seq<&str>) -> Seq<Seq<u8>> {
    words.map_values(|w: &str| w.spec_bytes())
}

/// A remainder is acceptable when it is empty or a dictionary word.
pub open spec fn acceptable(dict: Seq<Seq<u8>>, w: Seq<u8>) -> bool {
    w.len() == 0 || dict.contains(w)
}

/// A stitch is valid when both of its remainders are acceptable.
pub open spec fn stitch_valid(dict: Seq<Seq<u8>>, s: StitchView) -> bool {
    acceptable(dict, s.rem_given) && acceptable(dict, s.rem_found)
}

/// The two pieces that, written one after the other, give the stitched word.
pub open spec fn whole_spec(s: StitchView) -> (Seq<u8>, Seq<u8>) {
    match s.pos {
        Position::Left => (s.given, s.rem_found),
        Position::Right => (s.rem_found, s.given),
    }
}

/// Whether `w` is one of `words`.
pub fn contains_word(words: &Vec<&str>, w: &str) -> (r: bool)
    ensures
        r == dict_of(words@).contains(w.spec_bytes()),
{
    let wb = w.as_bytes();
    let n = wb.len();
    let mut i: usize = 0;
    while i < words.len()
        invariant
            i <= words@.len(),
            n == w.spec_bytes().len(),
            wb@ == w.spec_bytes(),
            forall|j: int| 0 <= j < i ==> dict_of(words@)[j] != w.spec_bytes(),
        decreases words@.len() - i,
    {
        let cb = words[i].as_bytes();
        if cb.len() == n && segments_equal(cb, 0, wb, 0, n) {
            assert(cb@ =~= cb@.subrange(0, n as int));
            assert(wb@ =~= wb@.subrange(0, n as int));
            assert(dict_of(words@)[i as int] == w.spec_bytes());
            return true;
        }
        if cb.len() == n {
            assert(cb@ =~= cb@.subrange(0, n as int));
            assert(wb@ =~= wb@.subrange(0, n as int));
        }
        i = i + 1;
    }
    false
}

/// One overlap of a transform: the intersection and what is left of each word.
#[derive(Debug, Clone, Copy)]
pub struct Stitch<'a> {
    trans: Transform<'a>,
    isect: &'a str,
    rem_given: &'a str,
    rem_found: &'a str,
}

impl<'a> View for Stitch<'a> {
    type V = StitchView;

    closed spec fn view(&self) -> StitchView {
        StitchView {
            given: self.trans.pair.given.spec_bytes(),
            found: self.trans.pair.found.spec_bytes(),
            pos: self.trans.pos,
            isect: self.isect.spec_bytes(),
            rem_given: self.rem_given.spec_bytes(),
            rem_found: self.rem_found.spec_bytes(),
        }
    }
}

impl<'a> Stitch<'a> {
    /// The stitch of `trans` with an overlap of `isect_len` bytes, if its
    /// words agree there.
    pub fn new(trans: Transform<'a>, isect_len: usize) -> (r: Option<Self>)
        requires
            1 <= isect_len < min_len(trans.given_bytes(), trans.found_bytes()),
        ensures
            match r {
                Some(s) => stitch_at(trans.given_bytes(), trans.found_bytes(), trans.pos, isect_len as int)
                    == seq![s@],
                None => stitch_at(trans.given_bytes(), trans.found_bytes(), trans.pos, isect_len as int)
                    == Seq::<StitchView>::empty(),
            },
            r matches Some(s) ==> stitch_wf(s@) && s@.isect.len() == isect_len,
    {
        match trans.fracture(isect_len) {
            Some((isect, rem_given, rem_found)) => {
                let s = Stitch { trans, isect, rem_given, rem_found };
                assert(stitch_at(trans.given_bytes(), trans.found_bytes(), trans.pos, isect_len as int) =~= seq![s@]);
                Some(s)
            },
            None => None,
        }
    }

    /// Whether both remainders are empty or words of `words`.
    pub fn valid(&self, words: &Vec<&str>) -> (r: bool)
        ensures
            r == stitch_valid(dict_of(words@), self@),
    {
        let g = self.rem_given.as_bytes().len() == 0 || contains_word(words, self.rem_given);
        let f = self.rem_found.as_bytes().len() == 0 || contains_word(words, self.rem_found);
        g && f
    }

    /// The stitched word as two pieces: the given word and the rest of the
    /// found word, in the order of the alignment.
    pub fn whole(&self) -> (r: Whole<'a>)
        ensures
            r@ == whole_spec(self@),
    {
        match self.trans.pos {
            Position::Left => Whole { left: self.trans.pair.given, right: self.rem_found },
            Position::Right => Whole { left: self.rem_found, right: self.trans.pair.given },
        }
    }

    /// The stitch taken apart into its public pieces.
    pub fn into_parts(self) -> (r: StitchParts<'a>)
        ensures
            r@ == self@,
    {
        StitchParts::from(self)
    }
}

/// The pieces of a stitch, open to read.
#[derive(Debug, Clone, Copy)]
pub struct StitchParts<'a> {
    pub trans: Transform<'a>,
    pub isect: &'a str,
    pub rem_given: &'a str,
    pub rem_found: &'a str,
}

impl<'a> View for StitchParts<'a> {
    type V = StitchView;

    open spec fn view(&self) -> StitchView {
        StitchView {
            given: self.trans.pair.given.spec_bytes(),
            found: self.trans.pair.found.spec_bytes(),
            pos: self.trans.pos,
            isect: self.isect.spec_bytes(),
            rem_given: self.rem_given.spec_bytes(),
            rem_found: self.rem_found.spec_bytes(),
        }
    }
}

impl<'a> From<Stitch<'a>> for StitchParts<'a> {
    fn from(v: Stitch<'a>) -> (r: Self) {
        StitchParts { trans: v.trans, isect: v.isect, rem_given: v.rem_given, rem_found: v.rem_found }
    }
}

impl<'a> vstd::std_specs::convert::FromSpecImpl<Stitch<'a>> for StitchParts<'a> {
    open spec fn obeys_from_spec() -> bool {
        true
    }

    closed spec fn from_spec(v: Stitch<'a>) -> Self {
        StitchParts { trans: v.trans, isect: v.isect, rem_given: v.rem_given, rem_found: v.rem_found }
    }
}

/// The UTF-8 bytes of two strings joined are the bytes of each, joined.
proof fn lemma_encode_concat(a: Seq<char>, b: Seq<char>)
    ensures
        encode_utf8(a + b) == encode_utf8(a) + encode_utf8(b),
    decreases a.len(),
{
    if a.len() == 0 {
        assert(a + b =~= b);
        assert(encode_utf8(a) + encode_utf8(b) =~= encode_utf8(b));
    } else {
        lemma_encode_concat(a.drop_first(), b);
        assert((a + b).drop_first() =~= a.drop_first() + b);
        assert((a + b)[0] == a[0]);
        let h = encode_scalar(a[0] as u32);
        assert(h + (encode_utf8(a.drop_first()) + encode_utf8(b)) =~= (h + encode_utf8(a.drop_first()))
            + encode_utf8(b));
    }
}

/// A stitched word as the two pieces written one after the other.
#[derive(Debug, Clone, Copy, PartialEq, Eq, PartialOrd, Ord)]
pub struct Whole<'a> {
    left: &'a str,
    right: &'a str,
}

impl<'a> View for Whole<'a> {
    type V = (Seq<u8>, Seq<u8>);

    closed spec fn view(&self) -> (Seq<u8>, Seq<u8>) {
        (self.left.spec_bytes(), self.right.spec_bytes())
    }
}

impl<'a> Whole<'a> {
    /// The first piece.
    pub fn left(&self) -> (r: &'a str)
        ensures
            r.spec_bytes() == self@.0,
            r@ == self.chars().0,
    {
        self.left
    }

    /// The second piece.
    pub fn right(&self) -> (r: &'a str)
        ensures
            r.spec_bytes() == self@.1,
            r@ == self.chars().1,
    {
        self.right
    }

    /// The characters of the two pieces.
    pub closed spec fn chars(&self) -> (Seq<char>, Seq<char>) {
        (self.left@, self.right@)
    }

    /// The stitched word: the first piece, then the second.
    pub fn text(&self) -> (r: String)
        ensures
            r@ == self.chars().0 + self.chars().1,
            encode_utf8(r@) == self@.0 + self@.1,
    {
        let mut s = self.left.to_owned();
        s.append(self.right);
        proof {
            lemma_encode_concat(self.left@, self.right@);
        }
        s
    }
}

/// A stitch with its validity and, when the anchor was an expansion of the
/// given word, that expansion and its alignment.
#[derive(Debug, Clone, Copy)]
pub struct Combo<'a> {
    pub stitch: Stitch<'a>,
    pub valid: bool,
    pub expand: Option<(&'a str, Position)>,
}

/// A combo in the terms of the bytes of its words.
pub struct ComboView {
    pub stitch: StitchView,
    pub valid: bool,
    pub expand: Option<(Seq<u8>, Position)>,
}

impl<'a> View for Combo<'a> {
    type V = ComboView;

    open spec fn view(&self) -> ComboView {
        ComboView {
            stitch: self.stitch@,
            valid: self.valid,
            expand: match self.expand {
                Some(e) => Some((e.0.spec_bytes(), e.1)),
                None => None,
            },
        }
    }
}

/// The views of a sequence of combos.
pub open spec fn combo_views<'a>(v: Seq<Combo<'a>>) -> Seq<ComboView> {
    v.map_values(|c: Combo<'a>| c@)
}

/// A query: the given word, the dictionary and the filters.
pub struct Query {
    pub given: Seq<u8>,
    pub dict: Seq<Seq<u8>>,
    pub disable_exp: bool,
    pub valid: Option<bool>,
    pub pos: Option<Position>,
    pub exp_pos: Option<Position>,
}

/// What a search runs on: the given word, the dictionary, and the filters.
pub struct Ctx<'a> {
    /// Leave out expansions: only the given word is stitched.
    pub disable_exp: bool,
    /// Keep only combos whose validity is this.
    pub valid: Option<bool>,
    /// Keep only stitches at this alignment.
    pub pos: Option<Position>,
    /// Look for expansions at this alignment only.
    pub exp_pos: Option<Position>,
    /// The word to stitch.
    pub given: &'a str,
    /// The dictionary. It is meant as a set (see `words_distinct`): a word
    /// listed twice is searched twice, and its combos come twice.
    pub founds: Vec<&'a str>,
}

impl<'a> Ctx<'a> {
    /// No dictionary word is listed twice.
    pub open spec fn words_distinct(&self) -> bool {
        dict_of(self.founds@).no_duplicates()
    }
}

impl<'a> View for Ctx<'a> {
    type V = Query;

    open spec fn view(&self) -> Query {
        Query {
            given: self.given.spec_bytes(),
            dict: dict_of(self.founds@),
            disable_exp: self.disable_exp,
            valid: self.valid,
            pos: self.pos,
            exp_pos: self.exp_pos,
        }
    }
}

/// The alignment at which `found` expands `given`, if it does: `found` is
/// longer and starts (`Left`) or ends (`Right`) with `given`. With no
/// required alignment a word that does both counts once, as `Left`.
pub open spec fn expansion_of(given: Seq<u8>, found: Seq<u8>, exp_pos: Option<Position>) -> Option<
    Position,
> {
    if given.len() >= found.len() {
        None
    } else {
        let starts = found.subrange(0, given.len() as int) == given;
        let ends = found.subrange(found.len() - given.len(), found.len() as int) == given;
        match exp_pos {
            Some(Position::Left) => if starts {
                Some(Position::Left)
            } else {
                None
            },
            Some(Position::Right) => if ends {
                Some(Position::Right)
            } else {
                None
            },
            None => if starts {
                Some(Position::Left)
            } else if ends {
                Some(Position::Right)
            } else {
                None
            },
        }
    }
}

/// The expansions among the first `n` dictionary words, in dictionary order.
pub open spec fn expansions_upto(
    given: Seq<u8>,
    dict: Seq<Seq<u8>>,
    exp_pos: Option<Position>,
    n: int,
) -> Seq<(Seq<u8>, Position)>
    decreases n,
{
    if n <= 0 {
        seq![]
    } else {
        expansions_upto(given, dict, exp_pos, n - 1) + match expansion_of(given, dict[n - 1], exp_pos) {
            Some(p) => seq![(dict[n - 1], p)],
            None => seq![],
        }
    }
}

/// The expansions of the given word: none when expansion is disabled.
pub open spec fn expansions_spec(q: Query) -> Seq<(Seq<u8>, Position)> {
    if q.disable_exp {
        seq![]
    } else {
        expansions_upto(q.given, q.dict, q.exp_pos, q.dict.len() as int)
    }
}

/// The words that are stitched: the given word, untagged, then each
/// expansion tagged with its alignment.
pub open spec fn anchors_spec(q: Query) -> Seq<(Seq<u8>, Option<Position>)> {
    seq![(q.given, None)] + tag_expansions(expansions_spec(q))
}

/// Expansions as anchors: each word tagged with its alignment.
pub open spec fn tag_expansions(s: Seq<(Seq<u8>, Position)>) -> Seq<(Seq<u8>, Option<Position>)> {
    s.map_values(|e: (Seq<u8>, Position)| (e.0, Some(e.1)))
}

/// Every combo of a list of anchors, in order.
pub open spec fn combos_of_anchors(dict: Seq<Seq<u8>>, anchors: Seq<(Seq<u8>, Option<Position>)>) -> Seq<
    ComboView,
> {
    all_combos_upto(dict, anchors, anchors.len() as int)
}

/// The expansion record carried by the combos of an anchor.
pub open spec fn expand_tag(word: Seq<u8>, tag: Option<Position>) -> Option<(Seq<u8>, Position)> {
    match tag {
        Some(p) => Some((word, p)),
        None => None,
    }
}

/// The combos of some stitches.
pub open spec fn combos_of(
    dict: Seq<Seq<u8>>,
    stitches: Seq<StitchView>,
    expand: Option<(Seq<u8>, Position)>,
) -> Seq<ComboView> {
    stitches.map_values(
        |s: StitchView| ComboView { stitch: s, valid: stitch_valid(dict, s), expand },
    )
}

/// Every combo of an anchor with one dictionary word: `Left` stitches, then `Right`.
pub open spec fn pair_combos(
    dict: Seq<Seq<u8>>,
    anchor: Seq<u8>,
    tag: Option<Position>,
    found: Seq<u8>,
) -> Seq<ComboView> {
    combos_of(dict, stitches_spec(anchor, found, Position::Left), expand_tag(anchor, tag))
        + combos_of(dict, stitches_spec(anchor, found, Position::Right), expand_tag(anchor, tag))
}

/// Every combo of an anchor with the first `n` dictionary words.
pub open spec fn anchor_combos_upto(
    dict: Seq<Seq<u8>>,
    anchor: Seq<u8>,
    tag: Option<Position>,
    n: int,
) -> Seq<ComboView>
    decreases n,
{
    if n <= 0 {
        seq![]
    } else {
        anchor_combos_upto(dict, anchor, tag, n - 1) + pair_combos(dict, anchor, tag, dict[n - 1])
    }
}

/// Every combo of the first `n` anchors.
pub open spec fn all_combos_upto(
    dict: Seq<Seq<u8>>,
    anchors: Seq<(Seq<u8>, Option<Position>)>,
    n: int,
) -> Seq<ComboView>
    decreases n,
{
    if n <= 0 {
        seq![]
    } else {
        all_combos_upto(dict, anchors, n - 1) + anchor_combos_upto(
            dict,
            anchors[n - 1].0,
            anchors[n - 1].1,
            dict.len() as int,
        )
    }
}

/// Every combo of the query before the alignment and validity filters.
pub open spec fn all_combos(q: Query) -> Seq<ComboView> {
    combos_of_anchors(q.dict, anchors_spec(q))
}

/// Whether a combo passes an alignment filter.
pub open spec fn position_ok(pos: Option<Position>, c: ComboView) -> bool {
    match pos {
        Some(p) => c.stitch.pos == p,
        None => true,
    }
}

/// Whether a combo passes a validity filter.
pub open spec fn validity_ok(valid: Option<bool>, c: ComboView) -> bool {
    match valid {
        Some(v) => c.valid == v,
        None => true,
    }
}

/// Whether a combo passes the query's alignment and validity filters.
pub open spec fn accepts(q: Query, c: ComboView) -> bool {
    position_ok(q.pos, c) && validity_ok(q.valid, c)
}

/// The query's filters as a predicate.
pub open spec fn acceptor(q: Query) -> spec_fn(ComboView) -> bool {
    |c: ComboView| accepts(q, c)
}

/// The result of a query: every combo that passes its filters.
pub open spec fn find_all_spec(q: Query) -> Seq<ComboView> {
    all_combos(q).filter(acceptor(q))
}

/// The views of a sequence of expansions.
pub open spec fn expansion_views<'a>(v: Seq<(&'a str, Position)>) -> Seq<(Seq<u8>, Position)> {
    v.map_values(|e: (&'a str, Position)| (e.0.spec_bytes(), e.1))
}

/// The views of a sequence of anchors.
pub open spec fn anchor_views<'a>(v: Seq<(&'a str, Option<Position>)>) -> Seq<
    (Seq<u8>, Option<Position>),
> {
    v.map_values(|e: (&'a str, Option<Position>)| (e.0.spec_bytes(), e.1))
}

/// Every stitch of an enumeration has the alignment it was made at.
proof fn lemma_stitches_pos(given: Seq<u8>, found: Seq<u8>, pos: Position, n: int)
    ensures
        forall|i: int|
            0 <= i < stitches_upto(given, found, pos, n).len() ==> (#[trigger] stitches_upto(
                given,
                found,
                pos,
                n,
            )[i]).pos == pos,
    decreases n,
{
    if n > 1 {
        lemma_stitches_pos(given, found, pos, n - 1);
    }
}

/// Filtering keeps nothing of a sequence none of whose items passes.
pub(crate) proof fn lemma_filter_none<A>(s: Seq<A>, p: spec_fn(A) -> bool)
    requires
        forall|i: int| 0 <= i < s.len() ==> !p(#[trigger] s[i]),
    ensures
        s.filter(p) == Seq::<A>::empty(),
{
    broadcast use vstd::seq_lib::group_filter_ensures;

    if s.filter(p).len() > 0 {
        let e = s.filter(p)[0];
        assert(s.filter(p).contains(e));
        s.lemma_filter_contains_rev(p, e);
    }
    assert(s.filter(p) =~= Seq::<A>::empty());
}

/// The alignment at which `found` expands `given`, if it does.
fn expansion(given: &str, found: &str, exp_pos: Option<Position>) -> (r: Option<Position>)
    ensures
        r == expansion_of(given.spec_bytes(), found.spec_bytes(), exp_pos),
{
    let gb = given.as_bytes();
    let fb = found.as_bytes();
    let g = gb.len();
    let f = fb.len();
    if g >= f {
        return None;
    }
    assert(gb@.subrange(0, g as int) =~= gb@);
    match exp_pos {
        Some(Position::Left) => if segments_equal(fb, 0, gb, 0, g) {
            Some(Position::Left)
        } else {
            None
        },
        Some(Position::Right) => if segments_equal(fb, f - g, gb, 0, g) {
            Some(Position::Right)
        } else {
            None
        },
        None => if segments_equal(fb, 0, gb, 0, g) {
            Some(Position::Left)
        } else if segments_equal(fb, f - g, gb, 0, g) {
            Some(Position::Right)
        } else {
            None
        },
    }
}

/// The expansions of the given word among the dictionary words, in
/// dictionary order; none when expansion is disabled. The given word
/// itself is never one of them, and over a dictionary of distinct words no
/// expansion comes twice.
pub fn extrap<'a>(ctx: &Ctx<'a>) -> (r: Vec<(&'a str, Position)>)
    ensures
        expansion_views(r@) == expansions_spec(ctx@),
        forall|i: int|
            0 <= i < r@.len() ==> (#[trigger] r@[i]).0.spec_bytes().len()
                > ctx.given.spec_bytes().len(),
        ctx.words_distinct() ==> forall|i: int, j: int|
            0 <= i < j < r@.len() ==> (#[trigger] r@[i]).0.spec_bytes() != (#[trigger] r@[j]).0.spec_bytes(),
{
    let mut out: Vec<(&'a str, Position)> = Vec::new();
    if ctx.disable_exp {
        assert(expansion_views(out@) =~= expansions_spec(ctx@));
        return out;
    }
    let ghost mut idx: Seq<int> = Seq::empty();
    let mut i: usize = 0;
    while i < ctx.founds.len()
        invariant
            i <= ctx.founds@.len(),
            !ctx.disable_exp,
            expansion_views(out@) == expansions_upto(ctx@.given, ctx@.dict, ctx@.exp_pos, i as int),
            forall|j: int|
                0 <= j < out@.len() ==> (#[trigger] out@[j]).0.spec_bytes().len()
                    > ctx.given.spec_bytes().len(),
            idx.len() == out@.len(),
            forall|j: int|
                0 <= j < out@.len() ==> 0 <= #[trigger] idx[j] < i && out@[j].0.spec_bytes()
                    == ctx@.dict[idx[j]],
            forall|j: int, l: int| 0 <= j < l < out@.len() ==> #[trigger] idx[j] < #[trigger] idx[l],
            ctx.words_distinct() ==> forall|j: int, l: int|
                0 <= j < l < out@.len() ==> (#[trigger] out@[j]).0.spec_bytes() != (#[trigger] out@[l]).0.spec_bytes(),
        decreases ctx.founds@.len() - i,
    {
        let found = ctx.founds[i];
        assert(ctx@.dict[i as int] == found.spec_bytes());
        let ghost before = out@;
        match expansion(ctx.given, found, ctx.exp_pos) {
            Some(p) => {
                out.push((found, p));
                proof {
                    idx = idx.push(i as int);
                    assert(out@[out@.len() - 1] == (found, p));
                    if ctx.words_distinct() {
                        assert forall|j: int, l: int|
                            0 <= j < l < out@.len() implies (#[trigger] out@[j]).0.spec_bytes()
                            != (#[trigger] out@[l]).0.spec_bytes() by {
                            if l == out@.len() - 1 {
                                assert(idx[j] < i);
                                assert(ctx@.dict[idx[j]] != ctx@.dict[i as int]);
                            } else {
                                assert(out@[j] == before[j]);
                                assert(out@[l] == before[l]);
                            }
                        }
                    }
                }
                assert(expansion_views(out@) =~= expansion_views(before) + seq![(found.spec_bytes(), p)]);
            },
            None => {
                assert(expansion_views(out@) =~= expansion_views(before) + Seq::<(Seq<u8>, Position)>::empty());
            },
        }
        i = i + 1;
    }
    out
}

/// The words that are stitched: the given word, untagged, then each
/// expansion with its alignment.
pub fn anchors<'a>(ctx: &Ctx<'a>) -> (r: Vec<(&'a str, Option<Position>)>)
    ensures
        anchor_views(r@) == anchors_spec(ctx@),
{
    let exps = extrap(ctx);
    let mut out: Vec<(&'a str, Option<Position>)> = Vec::new();
    out.push((ctx.given, None));
    let ghost tagged = tag_expansions(expansion_views(exps@));
    let mut i: usize = 0;
    while i < exps.len()
        invariant
            i <= exps@.len(),
            tagged == tag_expansions(expansion_views(exps@)),
            anchor_views(out@) == seq![(ctx@.given, None::<Position>)] + tagged.take(i as int),
        decreases exps@.len() - i,
    {
        let (w, p) = exps[i];
        let ghost before = out@;
        out.push((w, Some(p)));
        assert(tagged.take(i + 1) =~= tagged.take(i as int).push(tagged[i as int]));
        assert(anchor_views(out@) =~= anchor_views(before).push((w.spec_bytes(), Some(p))));
        i = i + 1;
    }
    assert(tagged.take(exps@.len() as int) =~= tagged);
    out
}

/// Appends the combos of `anchor` with `found` at one alignment that pass
/// the query's filters.
fn push_pos_combos<'a>(
    ctx: &Ctx<'a>,
    anchor: &'a str,
    tag: Option<Position>,
    found: &'a str,
    pos: Position,
    out: &mut Vec<Combo<'a>>,
)
    ensures
        combo_views(final(out)@) == combo_views(old(out)@) + combos_of(
            ctx@.dict,
            stitches_spec(anchor.spec_bytes(), found.spec_bytes(), pos),
            expand_tag(anchor.spec_bytes(), tag),
        ).filter(acceptor(ctx@)),
{
    let ghost seg = combos_of(
        ctx@.dict,
        stitches_spec(anchor.spec_bytes(), found.spec_bytes(), pos),
        expand_tag(anchor.spec_bytes(), tag),
    );
    let ghost base = combo_views(out@);
    let allowed = match ctx.pos {
        Some(p) => p == pos,
        None => true,
    };
    if !allowed {
        proof {
            lemma_stitches_pos(
                anchor.spec_bytes(),
                found.spec_bytes(),
                pos,
                min_len(anchor.spec_bytes(), found.spec_bytes()),
            );
            assert forall|i: int| 0 <= i < seg.len() implies !acceptor(ctx@)(#[trigger] seg[i]) by {
                assert(seg[i].stitch == stitches_spec(anchor.spec_bytes(), found.spec_bytes(), pos)[i]);
            }
            lemma_filter_none(seg, acceptor(ctx@));
            assert(base + seg.filter(acceptor(ctx@)) =~= base);
        }
        return;
    }
    let trans = Transform { pair: Pairing { given: anchor, found }, pos };
    let sts = trans.stitches();
    let expand = match tag {
        Some(p) => Some((anchor, p)),
        None => None,
    };
    let mut i: usize = 0;
    while i < sts.len()
        invariant
            i <= sts@.len(),
            allowed,
            allowed == match ctx.pos {
                Some(p) => p == pos,
                None => true,
            },
            stitch_views(sts@) == stitches_spec(anchor.spec_bytes(), found.spec_bytes(), pos),
            seg == combos_of(
                ctx@.dict,
                stitches_spec(anchor.spec_bytes(), found.spec_bytes(), pos),
                expand_tag(anchor.spec_bytes(), tag),
            ),
            expand_tag(anchor.spec_bytes(), tag) == match expand {
                Some(e) => Some((e.0.spec_bytes(), e.1)),
                None => None,
            },
            combo_views(out@) == base + seg.take(i as int).filter(acceptor(ctx@)),
        decreases sts@.len() - i,
    {
        let st = sts[i];
        assert(stitch_views(sts@)[i as int] == st@);
        let v = st.valid(&ctx.founds);
        let c = Combo { stitch: st, valid: v, expand };
        assert(seg[i as int] == c@);
        let keep = match ctx.valid {
            Some(b) => b == v,
            None => true,
        };
        let ghost before = out@;
        proof {
            assert(seg.take(i + 1) =~= seg.take(i as int).push(c@));
            seg.take(i as int).lemma_filter_push(c@, acceptor(ctx@));
            lemma_stitches_pos(
                anchor.spec_bytes(),
                found.spec_bytes(),
                pos,
                min_len(anchor.spec_bytes(), found.spec_bytes()),
            );
            assert(c@.stitch == stitches_spec(anchor.spec_bytes(), found.spec_bytes(), pos)[i as int]);
            assert(keep == acceptor(ctx@)(c@));
        }
        if keep {
            out.push(c);
            assert(combo_views(out@) =~= combo_views(before).push(c@));
            assert(base + seg.take(i as int).filter(acceptor(ctx@)).push(c@) =~= (base + seg.take(i as int).filter(acceptor(ctx@))).push(c@));
        }
        i = i + 1;
    }
    assert(seg.take(sts@.len() as int) =~= seg);
}

/// Appends the combos of `anchor` with `found` that pass the query's filters.
fn push_pair_combos<'a>(
    ctx: &Ctx<'a>,
    anchor: &'a str,
    tag: Option<Position>,
    found: &'a str,
    out: &mut Vec<Combo<'a>>,
)
    ensures
        combo_views(final(out)@) == combo_views(old(out)@) + pair_combos(
            ctx@.dict,
            anchor.spec_bytes(),
            tag,
            found.spec_bytes(),
        ).filter(acceptor(ctx@)),
{
    let ghost base = combo_views(out@);
    let ghost exp = expand_tag(anchor.spec_bytes(), tag);
    let ghost l = combos_of(ctx@.dict, stitches_spec(anchor.spec_bytes(), found.spec_bytes(), Position::Left), exp);
    let ghost r = combos_of(ctx@.dict, stitches_spec(anchor.spec_bytes(), found.spec_bytes(), Position::Right), exp);
    push_pos_combos(ctx, anchor, tag, found, Position::Left, out);
    push_pos_combos(ctx, anchor, tag, found, Position::Right, out);
    proof {
        Seq::filter_distributes_over_add(l, r, acceptor(ctx@));
        assert(base + l.filter(acceptor(ctx@)) + r.filter(acceptor(ctx@)) =~= base + (l + r).filter(acceptor(ctx@)));
    }
}

/// Appends the combos of `anchor` with every dictionary word that pass the
/// query's filters.
fn push_anchor_combos<'a>(ctx: &Ctx<'a>, anchor: &'a str, tag: Option<Position>, out: &mut Vec<Combo<'a>>)
    ensures
        combo_views(final(out)@) == combo_views(old(out)@) + anchor_combos_upto(
            ctx@.dict,
            anchor.spec_bytes(),
            tag,
            ctx@.dict.len() as int,
        ).filter(acceptor(ctx@)),
{
    let ghost base = combo_views(out@);
    let mut i: usize = 0;
    assert(base + anchor_combos_upto(ctx@.dict, anchor.spec_bytes(), tag, 0).filter(acceptor(ctx@)) =~= base) by {
        reveal(Seq::filter);
    }
    while i < ctx.founds.len()
        invariant
            i <= ctx.founds@.len(),
            combo_views(out@) == base + anchor_combos_upto(ctx@.dict, anchor.spec_bytes(), tag, i as int).filter(
                acceptor(ctx@),
            ),
        decreases ctx.founds@.len() - i,
    {
        let found = ctx.founds[i];
        assert(ctx@.dict[i as int] == found.spec_bytes());
        let ghost prev = anchor_combos_upto(ctx@.dict, anchor.spec_bytes(), tag, i as int);
        let ghost next = pair_combos(ctx@.dict, anchor.spec_bytes(), tag, found.spec_bytes());
        push_pair_combos(ctx, anchor, tag, found, out);
        proof {
            Seq::filter_distributes_over_add(prev, next, acceptor(ctx@));
            assert(base + prev.filter(acceptor(ctx@)) + next.filter(acceptor(ctx@)) =~= base + (prev + next).filter(acceptor(ctx@)));
        }
        i = i + 1;
    }
}

/// The combos of one anchor (the given word or an expansion, as `tag`
/// says) with every dictionary word that pass the query's filters.
pub fn anchor_combos<'a>(ctx: &Ctx<'a>, anchor: &'a str, tag: Option<Position>) -> (r: Vec<Combo<'a>>)
    ensures
        combo_views(r@) == anchor_combos_upto(
            ctx@.dict,
            anchor.spec_bytes(),
            tag,
            ctx@.dict.len() as int,
        ).filter(acceptor(ctx@)),
{
    let mut out: Vec<Combo<'a>> = Vec::new();
    push_anchor_combos(ctx, anchor, tag, &mut out);
    assert(combo_views(Seq::<Combo<'a>>::empty()) =~= Seq::<ComboView>::empty());
    assert(Seq::<ComboView>::empty() + anchor_combos_upto(ctx@.dict, anchor.spec_bytes(), tag, ctx@.dict.len() as int).filter(acceptor(ctx@)) =~= anchor_combos_upto(ctx@.dict, anchor.spec_bytes(), tag, ctx@.dict.len() as int).filter(acceptor(ctx@)));
    out
}

/// Every combo of the query: each anchor stitched with each dictionary
/// word at each alignment and overlap, kept when it passes the filters.
/// The dictionary is meant as a set (`Ctx::words_distinct`): a word listed
/// twice has its combos listed twice.
pub fn find_all<'a>(ctx: &Ctx<'a>) -> (r: Vec<Combo<'a>>)
    ensures
        combo_views(r@) == find_all_spec(ctx@),
{
    let anchs = anchors(ctx);
    let ghost av = anchors_spec(ctx@);
    let mut out: Vec<Combo<'a>> = Vec::new();
    assert(combo_views(out@) =~= all_combos_upto(ctx@.dict, av, 0).filter(acceptor(ctx@))) by {
        reveal(Seq::filter);
    }
    let mut j: usize = 0;
    while j < anchs.len()
        invariant
            j <= anchs@.len(),
            anchor_views(anchs@) == av,
            av == anchors_spec(ctx@),
            combo_views(out@) == all_combos_upto(ctx@.dict, av, j as int).filter(acceptor(ctx@)),
        decreases anchs@.len() - j,
    {
        let (w, tag) = anchs[j];
        assert(av[j as int] == (w.spec_bytes(), tag));
        let ghost prev = all_combos_upto(ctx@.dict, av, j as int);
        let ghost next = anchor_combos_upto(ctx@.dict, w.spec_bytes(), tag, ctx@.dict.len() as int);
        push_anchor_combos(ctx, w, tag, &mut out);
        proof {
            Seq::filter_distributes_over_add(prev, next, acceptor(ctx@));
        }
        j = j + 1;
    }
    out
}

} // verus!
