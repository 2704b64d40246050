//! The string key space and its midpoint generator.
//!
//! Keys are variable-length strings over the digit alphabet, compared by plain
//! lexicographic order. The midpoint generator takes two boundary points —
//! concrete keys or the open sentinels `Start` and `End` — and produces a key
//! strictly between them, copying their longest (zero-padded) common prefix
//! and growing the key by one digit only when no whole digit fits in between.

use crate::digits;
use crate::lex::{
    digit_char, digit_val, is_digit, lemma_char_inj, lemma_digit_char_of_val,
    lemma_lex_common_prefix, lemma_lex_first_char, lemma_lex_proper_prefix, lemma_lex_skip,
    lemma_lex_trans, lemma_pad_props, lemma_pad_short, lex_lt, pad, pad_char, seq_tail,
    str_lex_lt, valid_key,
};
use crate::position::{PosError, Position};
use vstd::prelude::*;
use vstd::string::{StrSliceExecFns, StringExecFns};

verus! {

/// A boundary point of a midpoint computation: a concrete digit-string key,
/// the open lower boundary `Start` (conceptually the empty key, an infinite
/// run of implicit zero digits), or the open upper boundary `End`. Boundary
/// points are only ever inputs of the midpoint generator; they are never
/// stored.
#[derive(Clone, Copy)]
pub enum Point<'a> {
    Start,
    Mid(&'a str),
    End,
}

/// A well-formed boundary point: a concrete key must be a valid digit-string
/// key.
pub open spec fn point_wf(p: Point) -> bool {
    match p {
        Point::Start => true,
        Point::Mid(s) => valid_key(s@),
        Point::End => true,
    }
}

/// The digit string a boundary point contributes on the left of a midpoint
/// computation: `Start` is read as the empty string. (`End` never stands on
/// the left of a valid computation; it is mapped to the empty string only to
/// keep this function total.)
pub open spec fn point_seq(p: Point) -> Seq<char> {
    match p {
        Point::Start => Seq::<char>::empty(),
        Point::Mid(s) => s@,
        Point::End => Seq::<char>::empty(),
    }
}

/// The strict order of boundary points: `Start` below every nonempty key,
/// every key below `End`, and keys ordered lexicographically.
pub open spec fn point_lt(a: Point, b: Point) -> bool {
    match (a, b) {
        (_, Point::Start) => false,
        (Point::End, _) => false,
        (Point::Start, Point::End) => true,
        (Point::Start, Point::Mid(y)) => y@.len() > 0,
        (Point::Mid(_), Point::End) => true,
        (Point::Mid(x), Point::Mid(y)) => lex_lt(x@, y@),
    }
}

/// The length `r` contributes to the termination measure of the midpoint
/// recursion.
spec fn r_len(r: Point) -> nat {
    match r {
        Point::Mid(s) => s@.len(),
        _ => 0,
    }
}

/// The digit string a boundary point contributes on the right of a midpoint
/// computation: a concrete key is its digit string, `End` is the absent upper
/// bound. (`Start` never stands on the right of a valid computation.)
pub open spec fn point_right(p: Point) -> Option<Seq<char>> {
    match p {
        Point::Mid(s) => Some(s@),
        _ => None,
    }
}

/// Length of an optional right bound, for the termination measure.
pub open spec fn opt_len(r: Option<Seq<char>>) -> nat {
    match r {
        Some(s) => s.len(),
        None => 0,
    }
}

/// `l` with its first `n` characters stripped; stripping past the end leaves
/// the empty string (the implicit zero digits have no explicit suffix).
pub open spec fn strip(l: Seq<char>, n: int) -> Seq<char> {
    if n < l.len() {
        l.skip(n)
    } else {
        Seq::<char>::empty()
    }
}

/// The midpoint between a left digit string (`Start` is the empty string) and
/// an optional right digit string (`None` is the open upper bound `End`):
/// first the longest zero-padded common prefix is copied to the output, then
/// a single digit position is resolved by [`mid_digit_spec`].
///
/// This is the whole behaviour of the generator; the executable
/// [`StringPosition::mid_point`] returns exactly this sequence. Malformed
/// inputs that the executable code rejects (an empty right string, a prefix
/// that swallows the whole right string) map to the empty sequence.
pub open spec fn mid_spec(l: Seq<char>, r: Option<Seq<char>>) -> Seq<char>
    decreases l.len() + opt_len(r), 1int,
{
    match r {
        Option::Some(rs) => {
            if rs.len() == 0 {
                Seq::<char>::empty()
            } else {
                let n = pad(l, rs) as int;
                if n <= 0 {
                    mid_digit_spec(l, r)
                } else if n >= rs.len() {
                    Seq::<char>::empty()
                } else {
                    rs.take(n) + mid_spec(strip(l, n), Option::Some(rs.skip(n)))
                }
            }
        },
        Option::None => mid_digit_spec(l, Option::None),
    }
}

/// Resolves one digit position, once no zero-padded common prefix remains.
/// With `li` the alphabet index of `l`'s leading digit (`0` when `l` is
/// empty) and `ri` the index of `r`'s leading digit (the alphabet size when
/// `r` is the open upper bound):
/// - a whole digit fits strictly between them when `ri - li > 1`: the digit
///   at the rounded-up half of `li + ri` is the one-digit result;
/// - otherwise, when `r` has digits beyond its leading one, that leading
///   digit alone is the result (`r` truncated to one digit);
/// - otherwise the key grows: `l`'s leading digit is fixed and the midpoint
///   of `l`'s tail and the open upper bound is appended.
pub open spec fn mid_digit_spec(l: Seq<char>, r: Option<Seq<char>>) -> Seq<char>
    decreases l.len() + opt_len(r), 0int,
{
    if r matches Option::Some(rs) && rs.len() == 0 {
        Seq::<char>::empty()
    } else {
        let li = if l.len() == 0 {
            0
        } else {
            digit_val(l[0])
        };
        let ri = match r {
            Option::Some(rs) => digit_val(rs[0]),
            Option::None => 10,
        };
        if ri - li > 1 {
            seq![digit_char((li + ri + 1) / 2)]
        } else if r matches Option::Some(rs) && rs.len() > 1 {
            r->0.take(1)
        } else {
            seq![digit_char(li)] + mid_spec(seq_tail(l), Option::None)
        }
    }
}

impl<'a> Point<'a> {
    /// Classifies a digit string as a boundary point: the empty string is the
    /// open lower boundary.
    pub fn from_str(st: &'a str) -> (r: Self)
        ensures
            r == if st@.len() == 0 {
                Point::<'a>::Start
            } else {
                Point::<'a>::Mid(st)
            },
    {
        if st.is_empty() {
            Point::Start
        } else {
            Point::Mid(st)
        }
    }

    /// The digit string of this point, reading `Start` as the empty string;
    /// `End` has none.
    pub fn as_str(&self) -> (r: Option<&str>)
        ensures
            r is Some <==> !(*self is End),
            r is Some ==> r->0@ == point_seq(*self),
    {
        proof {
            reveal_strlit("");
        }
        match self {
            Point::End => None,
            Point::Start => {
                proof {
                    assert(""@ =~= point_seq(*self));
                }
                Some("")
            },
            Point::Mid(st) => Some(st),
        }
    }
}

/// A key space whose keys are digit strings, compared lexicographically.
/// Inserting between any two keys always succeeds without renumbering: the
/// midpoint generator extends the key by one digit when no shorter key fits.
pub struct StringPosition {
    records: Vec<(String, String)>,
}

impl StringPosition {
    /// The key stored at slot `i`.
    pub closed spec fn key_at(&self, i: int) -> Seq<char> {
        self.records@[i].1@
    }

    /// The number of records: the length of the label sequence.
    pub open spec fn count(&self) -> nat {
        self.labels().len()
    }

    /// The key of the last slot, or the empty string (the lower sentinel's
    /// reading) when the space is empty: the left boundary an append hands to
    /// the midpoint generator.
    pub open spec fn last_key_or_empty(&self) -> Seq<char> {
        if self.count() == 0 {
            Seq::<char>::empty()
        } else {
            self.key_at(self.count() - 1)
        }
    }

    /// Every stored key is a valid digit-string key and keys strictly ascend
    /// in slot order.
    pub open spec fn keys_wf(&self) -> bool {
        &&& forall|i: int| 0 <= i < self.count() ==> valid_key(#[trigger] self.key_at(i))
        &&& forall|i: int, j: int|
            0 <= i < j < self.count() ==> lex_lt(#[trigger] self.key_at(i), #[trigger] self.key_at(j))
    }

    /// The ordering law, made explicit for this backend: in a well-formed
    /// string key space the stored keys strictly ascend in slot order, so the
    /// ascending key order of the records is exactly their slot order, and
    /// the labels in slot order equal the labels in key order.
    pub proof fn lemma_slot_order_is_key_order(&self)
        requires
            self.wf(),
        ensures
            self.sorted_by_keys(),
    {
    }

    /// An empty string key space.
    pub fn new() -> (r: Self)
        ensures
            r.wf(),
            r.labels() == Seq::<Seq<char>>::empty(),
            r.count() == 0,
    {
        let r = StringPosition { records: Vec::new() };
        proof {
            assert(r.labels() =~= Seq::<Seq<char>>::empty());
        }
        r
    }

    /// Computes a digit-string key strictly between the two boundary points,
    /// or reports an invalid range when `a` does not lie strictly below `b`.
    ///
    /// On success the result is a valid key (in particular it never ends in
    /// `'0'`), lies strictly between `a` and `b` in the boundary order, and
    /// copies the longest common prefix of the zero-padded `a` and `b`.
    pub fn mid_point<'a>(&self, a: Point<'a>, b: Point<'a>) -> (r: Result<String, PosError>)
        requires
            point_wf(a),
            point_wf(b),
        ensures
            r is Ok <==> point_lt(a, b),
            r is Err ==> r == Err::<String, PosError>(PosError::InvalidRange),
            r is Ok ==> r->Ok_0@ == mid_spec(point_seq(a), point_right(b)),
            r is Ok ==> valid_key(r->Ok_0@) && lex_lt(point_seq(a), r->Ok_0@),
            r is Ok ==> (b matches Point::Mid(bs) ==> lex_lt(r->Ok_0@, bs@) && r->Ok_0@.take(
                pad(point_seq(a), bs@) as int,
            ) == bs@.take(pad(point_seq(a), bs@) as int)),
    {
        let ordered: bool = match (&a, &b) {
            (Point::End, _) => false,
            (_, Point::Start) => false,
            (Point::Start, Point::End) => true,
            (Point::Start, Point::Mid(_)) => true,
            (Point::Mid(_), Point::End) => true,
            (Point::Mid(x), Point::Mid(y)) => str_lex_lt(x, y),
        };
        if ordered {
            Ok(self.mid_rec(a, b))
        } else {
            Err(PosError::InvalidRange)
        }
    }

    /// The recursive heart of the midpoint generator: strips the longest
    /// zero-padded common prefix, then resolves a single digit position.
    fn mid_rec<'a>(&self, l: Point<'a>, r: Point<'a>) -> (res: String)
        requires
            point_wf(l),
            point_wf(r),
            point_lt(l, r),
        ensures
            res@ == mid_spec(point_seq(l), point_right(r)),
            valid_key(res@),
            lex_lt(point_seq(l), res@),
            r matches Point::Mid(bs) ==> lex_lt(res@, bs@) && res@.take(
                pad(point_seq(l), bs@) as int,
            ) == bs@.take(pad(point_seq(l), bs@) as int),
        decreases point_seq(l).len() + r_len(r), 1int,
    {
        match r {
            Point::Start => unreached(),
            Point::End => self.mid_digit(l, r),
            Point::Mid(bs) => {
                let l_str: &str = match l {
                    Point::Start => "",
                    Point::Mid(s) => s,
                    Point::End => unreached(),
                };
                proof {
                    reveal_strlit("");
                    assert(l_str@ =~= point_seq(l));
                    assert(lex_lt(point_seq(l), bs@));
                    lemma_pad_props(point_seq(l), bs@);
                    lemma_pad_short(point_seq(l), bs@);
                }
                let n = self.padding(l_str, bs);
                if n > 0 {
                    let ghost lv = point_seq(l);
                    let lb = bs.unicode_len();
                    let la = l_str.unicode_len();
                    let prefix = bs.substring_char(0, n);
                    let b_suf = bs.substring_char(n, lb);
                    proof {
                        assert(prefix@ =~= bs@.take(n as int));
                        assert(b_suf@ =~= bs@.skip(n as int));
                        assert(b_suf@[b_suf@.len() - 1] == bs@[bs@.len() - 1]);
                        assert forall|i: int| 0 <= i < b_suf@.len() implies is_digit(
                            b_suf@[i],
                        ) by {
                            assert(b_suf@[i] == bs@[n + i]);
                        }
                        assert(valid_key(b_suf@));
                        assert forall|j: int| 0 <= j < n implies pad_char(lv, j) == bs@[j] by {}
                    }
                    let l_suf: Point = if n < la {
                        let s = l_str.substring_char(n, la);
                        proof {
                            assert(s@ =~= lv.skip(n as int));
                            assert(s@[s@.len() - 1] == lv[lv.len() - 1]);
                            assert forall|i: int| 0 <= i < s@.len() implies is_digit(s@[i]) by {
                                assert(s@[i] == lv[n + i]);
                            }
                            assert(valid_key(s@));
                        }
                        Point::Mid(s)
                    } else {
                        Point::Start
                    };
                    proof {
                        if n < la {
                            assert forall|j: int| 0 <= j < n implies lv[j] == bs@[j] by {
                                assert(pad_char(lv, j) == bs@[j]);
                            }
                            lemma_lex_skip(lv, bs@, n as int);
                        }
                        assert(point_lt(l_suf, Point::Mid(b_suf)));
                    }
                    let rest = self.mid_rec(l_suf, Point::Mid(b_suf));
                    let out = prefix.to_owned().concat(rest.as_str());
                    proof {
                        let outv = out@;
                        let restv = rest@;
                        assert(outv == bs@.take(n as int) + restv);
                        assert(outv.len() == n + restv.len());
                        assert(outv[outv.len() - 1] == restv[restv.len() - 1]);
                        assert forall|i: int| 0 <= i < outv.len() implies is_digit(outv[i]) by {
                            if i < n {
                                assert(outv[i] == bs@[i]);
                            } else {
                                assert(outv[i] == restv[i - n]);
                            }
                        }
                        assert(valid_key(outv));
                        // res lies strictly below bs: both share the prefix,
                        // and the recursive result lies below bs' suffix.
                        lemma_lex_common_prefix(bs@.take(n as int), restv, bs@.skip(n as int));
                        assert(bs@.take(n as int) + bs@.skip(n as int) =~= bs@);
                        assert(lex_lt(outv, bs@));
                        // l lies strictly below res.
                        assert forall|j: int| 0 <= j < n && j < la implies lv[j] == bs@[j] by {
                            assert(pad_char(lv, j) == bs@[j]);
                        }
                        if n <= la {
                            assert(lv.take(n as int) =~= bs@.take(n as int));
                            assert(lv.take(n as int) + lv.skip(n as int) =~= lv);
                            if n < la {
                                assert(point_seq(l_suf) =~= lv.skip(n as int));
                            } else {
                                assert(lv.skip(n as int) =~= point_seq(l_suf));
                            }
                            assert(lex_lt(lv.skip(n as int), restv));
                            lemma_lex_common_prefix(
                                bs@.take(n as int),
                                lv.skip(n as int),
                                restv,
                            );
                            assert(lex_lt(lv, outv));
                        } else {
                            // l is exhausted inside the padded prefix: it is a
                            // proper prefix of the result.
                            assert forall|j: int| 0 <= j < lv.len() implies bs@[j] == lv[j] by {
                                assert(pad_char(lv, j) == bs@[j]);
                            }
                            let ext = bs@.subrange(la as int, n as int) + restv;
                            assert(outv =~= lv + ext);
                            lemma_lex_proper_prefix(lv, ext);
                        }
                        assert(outv.take(n as int) =~= bs@.take(n as int));
                        assert(point_seq(l_suf) =~= strip(lv, n as int));
                        assert(b_suf@ =~= bs@.skip(n as int));
                        assert(mid_spec(lv, point_right(r)) == bs@.take(n as int) + mid_spec(
                            strip(lv, n as int),
                            Option::Some(bs@.skip(n as int)),
                        ));
                        assert(outv == mid_spec(lv, point_right(r)));
                    }
                    out
                } else {
                    let out = self.mid_digit(l, r);
                    proof {
                        assert(out@.take(0) =~= bs@.take(0));
                        assert(mid_spec(point_seq(l), point_right(r)) == mid_digit_spec(
                            point_seq(l),
                            point_right(r),
                        ));
                    }
                    out
                }
            },
        }
    }

    /// Resolves one digit position once no padded common prefix remains:
    /// either a whole digit fits strictly between the fronts of `l` and `r`,
    /// or `r` is truncated to its leading digit, or the key grows by fixing
    /// `l`'s leading digit and recursing against `End`.
    fn mid_digit<'a>(&self, l: Point<'a>, r: Point<'a>) -> (res: String)
        requires
            point_wf(l),
            point_wf(r),
            point_lt(l, r),
            r matches Point::Mid(bs) ==> pad(point_seq(l), bs@) == 0,
        ensures
            res@ == mid_digit_spec(point_seq(l), point_right(r)),
            valid_key(res@),
            lex_lt(point_seq(l), res@),
            r matches Point::Mid(bs) ==> lex_lt(res@, bs@),
        decreases point_seq(l).len() + r_len(r), 0int,
    {
        let l_idx = self.digit_left_idx(&l);
        let r_idx = self.digit_right_idx(&r);
        proof {
            match r {
                Point::Mid(bs) => {
                    lemma_pad_props(point_seq(l), bs@);
                    assert(pad_char(point_seq(l), 0) != bs@[0]);
                    match l {
                        Point::Mid(ls) => {
                            assert(ls@[0] != bs@[0]);
                            assert(lex_lt(ls@, bs@));
                            assert((ls@[0] as u32) < (bs@[0] as u32));
                        },
                        _ => {
                            assert(bs@[0] != '0');
                            assert(is_digit(bs@[0]));
                            if digit_val(bs@[0]) == 0 {
                                lemma_char_inj(bs@[0], '0');
                            }
                            assert(digit_val(bs@[0]) != 0);
                        },
                    }
                },
                _ => {},
            }
            assert(l_idx < r_idx);
        }
        if r_idx - l_idx > 1 {
            let m_idx = (l_idx + r_idx + 1) / 2;
            let res = match digits::string_at(m_idx) {
                Some(s) => s,
                None => unreached(),
            };
            proof {
                assert(l_idx < m_idx && m_idx < r_idx);
                assert(res@[res@.len() - 1] == res@[0]);
                assert(digit_val(res@[0]) >= 1);
                assert(res@[0] != '0');
                lemma_digit_char_of_val(res@[0]);
                assert(res@ =~= seq![digit_char(m_idx as int)]);
                assert(res@ == mid_digit_spec(point_seq(l), point_right(r)));
                match l {
                    Point::Mid(ls) => {
                        lemma_lex_first_char(ls@, res@);
                    },
                    _ => {},
                }
                match r {
                    Point::Mid(bs) => {
                        lemma_lex_first_char(res@, bs@);
                    },
                    _ => {},
                }
            }
            res
        } else {
            let truncate: bool = match &r {
                Point::Mid(bs) => bs.unicode_len() > 1,
                _ => false,
            };
            if truncate {
                let bs: &str = match r {
                    Point::Mid(bs) => bs,
                    _ => unreached(),
                };
                let res = bs.substring_char(0, 1).to_owned();
                proof {
                    assert(res@ =~= bs@.take(1));
                    assert(res@[0] == bs@[0]);
                    assert(digit_val(res@[0]) == r_idx as int);
                    assert(res@[0] != '0');
                    assert(valid_key(res@));
                    match l {
                        Point::Mid(ls) => {
                            lemma_lex_first_char(ls@, res@);
                        },
                        _ => {},
                    }
                    lemma_lex_proper_prefix(bs@.take(1), bs@.skip(1));
                    assert(bs@.take(1) + bs@.skip(1) =~= bs@);
                    assert(res@ == mid_digit_spec(point_seq(l), point_right(r)));
                }
                res
            } else {
                // No digit fits and `r` offers no further digits: fix `l`'s
                // leading digit and recurse on its tail against `End`. This is
                // the only branch that grows the key, by one digit per call.
                let l_str: &str = match l {
                    Point::Start => "",
                    Point::Mid(s) => s,
                    Point::End => unreached(),
                };
                proof {
                    reveal_strlit("");
                    assert(l_str@ =~= point_seq(l));
                    match r {
                        Point::End => {
                            assert(r_idx == 10);
                            assert(l_idx == 9);
                            assert(point_seq(l).len() > 0);
                        },
                        _ => {},
                    }
                }
                let la = l_str.unicode_len();
                let suffix: &str = if la > 1 {
                    l_str.substring_char(1, la)
                } else {
                    ""
                };
                proof {
                    reveal_strlit("");
                    if la > 1 {
                        assert(suffix@ =~= l_str@.skip(1));
                        assert(suffix@[suffix@.len() - 1] == l_str@[l_str@.len() - 1]);
                        assert forall|i: int| 0 <= i < suffix@.len() implies is_digit(
                            suffix@[i],
                        ) by {
                            assert(suffix@[i] == l_str@[1 + i]);
                        }
                        assert(valid_key(suffix@));
                    }
                }
                let other_l = Point::from_str(suffix);
                let first = match digits::string_at(l_idx) {
                    Some(s) => s,
                    None => unreached(),
                };
                let rest = self.mid_rec(other_l, Point::End);
                let out = first.concat(rest.as_str());
                proof {
                    let outv = out@;
                    let restv = rest@;
                    assert(outv == first@ + restv);
                    assert(outv.len() == 1 + restv.len());
                    assert(outv[outv.len() - 1] == restv[restv.len() - 1]);
                    assert forall|i: int| 0 <= i < outv.len() implies is_digit(outv[i]) by {
                        if i >= 1 {
                            assert(outv[i] == restv[i - 1]);
                        }
                    }
                    assert(valid_key(outv));
                    match l {
                        Point::Mid(ls) => {
                            // The result keeps l's leading digit and continues
                            // strictly above l's tail.
                            assert(digit_val(outv[0]) == digit_val(ls@[0]));
                            assert((outv[0] as u32) == (ls@[0] as u32));
                            lemma_char_inj(outv[0], ls@[0]);
                            assert(outv[0] == ls@[0]);
                            let front = seq![ls@[0]];
                            assert(ls@ =~= front + ls@.skip(1));
                            assert(outv =~= front + restv);
                            if la > 1 {
                                assert(point_seq(other_l) =~= ls@.skip(1));
                            } else {
                                assert(ls@.skip(1) =~= point_seq(other_l));
                            }
                            assert(lex_lt(ls@.skip(1), restv));
                            lemma_lex_common_prefix(front, ls@.skip(1), restv);
                            assert(lex_lt(point_seq(l), outv));
                        },
                        _ => {
                            assert(point_seq(l).len() == 0);
                            assert(lex_lt(point_seq(l), outv));
                        },
                    }
                    match r {
                        Point::Mid(bs) => {
                            assert(digit_val(outv[0]) == l_idx as int);
                            assert(digit_val(bs@[0]) == r_idx as int);
                            lemma_lex_first_char(outv, bs@);
                        },
                        _ => {},
                    }
                    lemma_digit_char_of_val(outv[0]);
                    assert(first@ =~= seq![digit_char(l_idx as int)]);
                    assert(point_seq(other_l) =~= seq_tail(point_seq(l)));
                    assert(restv == mid_spec(seq_tail(point_seq(l)), Option::None));
                    assert(outv == mid_digit_spec(point_seq(l), point_right(r)));
                }
                out
            }
        }
    }

    /// Alphabet index of the leading digit of a left boundary point; `Start`
    /// reads as the implicit digit `'0'`.
    fn digit_left_idx<'a>(&self, p: &Point<'a>) -> (r: usize)
        requires
            point_wf(*p),
            !(*p is End),
        ensures
            *p is Start ==> r == 0,
            *p matches Point::Mid(s) ==> r as int == digit_val(s@[0]),
            r <= 9,
    {
        match p {
            Point::Start => 0,
            Point::End => unreached(),
            Point::Mid(st) => match digits::index_of(st) {
                Some(i) => i,
                None => unreached(),
            },
        }
    }

    /// Alphabet index of the leading digit of a right boundary point; `End`
    /// reads as the alphabet size, one past the highest digit.
    fn digit_right_idx<'a>(&self, p: &Point<'a>) -> (r: usize)
        requires
            point_wf(*p),
            !(*p is Start),
        ensures
            *p is End ==> r == 10,
            *p matches Point::Mid(s) ==> r as int == digit_val(s@[0]) && r <= 9,
            r <= 10,
    {
        match p {
            Point::Start => unreached(),
            Point::End => digits::max_index(),
            Point::Mid(st) => match digits::index_of(st) {
                Some(i) => i,
                None => unreached(),
            },
        }
    }

    /// Length of the common prefix of `a` and `b`, reading positions past the
    /// end of `a` as the implicit digit `'0'`; never exceeds `b`'s length.
    fn padding(&self, a: &str, b: &str) -> (n: usize)
        ensures
            n == pad(a@, b@),
    {
        let la = a.unicode_len();
        let lb = b.unicode_len();
        let mut n: usize = 0;
        loop
            invariant
                n <= lb,
                la == a@.len(),
                lb == b@.len(),
                forall|j: int| 0 <= j < n ==> pad_char(a@, j) == b@[j],
            decreases lb - n,
        {
            if n == lb {
                proof {
                    crate::lex::lemma_pad_unique(a@, b@, n as int);
                }
                return n;
            }
            let cb = b.get_char(n);
            let ca = if n < la {
                a.get_char(n)
            } else {
                '0'
            };
            if ca != cb {
                proof {
                    assert(pad_char(a@, n as int) == ca);
                    crate::lex::lemma_pad_unique(a@, b@, n as int);
                }
                return n;
            }
            n = n + 1;
        }
    }
}

impl Position for StringPosition {
    /// The labels in slot order.
    closed spec fn labels(&self) -> Seq<Seq<char>> {
        Seq::new(self.records@.len(), |i: int| self.records@[i].0@)
    }

    open spec fn wf(&self) -> bool {
        self.keys_wf()
    }

    open spec fn keys_fixed(pre: Self, post: Self) -> bool {
        &&& pre.count() == post.count()
        &&& forall|i: int| 0 <= i < pre.count() ==> #[trigger] pre.key_at(i) == post.key_at(i)
    }

    open spec fn sorted_by_keys(&self) -> bool {
        forall|i: int, j: int|
            0 <= i < j < self.count() ==> lex_lt(#[trigger] self.key_at(i), #[trigger] self.key_at(j))
    }

    /// A freshly built string key space holds the chain of appended
    /// midpoints: slot 0 holds the canonical first key (the midpoint of the
    /// two sentinels) and each later slot holds the midpoint of its
    /// predecessor's key and the upper sentinel — exactly the keys that an
    /// empty space followed by one append per label would assign.
    open spec fn initial_keys(&self) -> bool {
        forall|i: int|
            0 <= i < self.count() ==> #[trigger] self.key_at(i) == mid_spec(
                if i == 0 {
                    Seq::<char>::empty()
                } else {
                    self.key_at(i - 1)
                },
                Option::None,
            )
    }

    /// Appending keeps every existing slot's key and gives the new last slot
    /// the midpoint of the old last key (or the lower sentinel) and the
    /// upper sentinel, which lies strictly above every old key.
    open spec fn keys_after_add(pre: Self, post: Self) -> bool {
        &&& post.count() == pre.count() + 1
        &&& forall|i: int| 0 <= i < pre.count() ==> #[trigger] post.key_at(i) == pre.key_at(i)
        &&& post.key_at(pre.count() as int) == mid_spec(pre.last_key_or_empty(), Option::None)
        &&& pre.count() > 0 ==> lex_lt(
            pre.key_at(pre.count() - 1),
            post.key_at(pre.count() as int),
        )
    }

    /// Inserting keeps every other slot's key (the shifted slots carry their
    /// keys with them) and gives the new slot the midpoint of its old
    /// neighbours' keys (sentinels at the boundaries), strictly between
    /// them.
    open spec fn keys_after_insert(pre: Self, post: Self, idx: int) -> bool {
        &&& post.count() == pre.count() + 1
        &&& forall|i: int| 0 <= i < idx ==> #[trigger] post.key_at(i) == pre.key_at(i)
        &&& forall|i: int| idx <= i < pre.count() ==> #[trigger] post.key_at(i + 1) == pre.key_at(i)
        &&& post.key_at(idx) == mid_spec(
            if idx == 0 {
                Seq::<char>::empty()
            } else {
                pre.key_at(idx - 1)
            },
            if idx == pre.count() {
                Option::None
            } else {
                Option::Some(pre.key_at(idx))
            },
        )
        &&& idx > 0 ==> lex_lt(pre.key_at(idx - 1), post.key_at(idx))
        &&& idx < pre.count() ==> lex_lt(post.key_at(idx), pre.key_at(idx))
    }

    /// Deleting keeps every remaining slot's key: the slots after the gap
    /// carry their keys one slot to the left.
    open spec fn keys_after_delete(pre: Self, post: Self, idx: int) -> bool {
        &&& post.count() + 1 == pre.count()
        &&& forall|i: int| 0 <= i < idx ==> #[trigger] post.key_at(i) == pre.key_at(i)
        &&& forall|i: int| idx <= i < post.count() ==> #[trigger] post.key_at(i) == pre.key_at(i + 1)
    }

    #[verifier::rlimit(50)]
    fn from_keys(keys: Vec<&str>) -> (r: Self) {
        let mut pos = StringPosition::new();
        let n = keys.len();
        let mut i: usize = 0;
        while i < n
            invariant
                i <= n,
                n == keys@.len(),
                keys@.len() < 0x7FFF_FFFF,
                pos.wf(),
                pos.count() == i,
                pos.initial_keys(),
                pos.labels() == keys.deep_view().take(i as int),
            decreases n - i,
        {
            let k: &str = keys[i];
            let ghost prev = pos;
            pos.add(k);
            proof {
                assert(keys.deep_view()[i as int] == k@);
                assert(pos.labels() =~= keys.deep_view().take(i + 1 as int));
                assert forall|m: int| 0 <= m < pos.count() implies #[trigger] pos.key_at(m)
                    == mid_spec(
                    if m == 0 {
                        Seq::<char>::empty()
                    } else {
                        pos.key_at(m - 1)
                    },
                    Option::None,
                ) by {
                    if m < i {
                        assert(pos.key_at(m) == prev.key_at(m));
                        if m > 0 {
                            assert(pos.key_at(m - 1) == prev.key_at(m - 1));
                        }
                    } else {
                        assert(pos.key_at(m) == mid_spec(
                            prev.last_key_or_empty(),
                            Option::None,
                        ));
                        if m > 0 {
                            assert(prev.last_key_or_empty() == prev.key_at(m - 1));
                            assert(pos.key_at(m - 1) == prev.key_at(m - 1));
                        }
                    }
                }
            }
            i = i + 1;
        }
        proof {
            assert(pos.labels() =~= keys.deep_view());
        }
        pos
    }

    fn add(&mut self, key: &str) {
        let ghost pre = *self;
        let n = self.records.len();
        let mid: Result<String, PosError> = if n == 0 {
            self.mid_point(Point::Start, Point::End)
        } else {
            proof {
                assert(valid_key(self.key_at(n - 1)));
            }
            let lp = Point::Mid(self.records[n - 1].1.as_str());
            self.mid_point(lp, Point::End)
        };
        let m: String = match mid {
            Ok(m) => m,
            Err(_) => unreached(),
        };
        let label = key.to_owned();
        self.records.push((label, m));
        proof {
            assert forall|i: int| 0 <= i < self.count() implies valid_key(
                #[trigger] self.key_at(i),
            ) by {
                if i < n {
                    assert(self.key_at(i) == pre.key_at(i));
                }
            }
            assert forall|i: int, j: int| 0 <= i < j < self.count() implies lex_lt(
                #[trigger] self.key_at(i),
                #[trigger] self.key_at(j),
            ) by {
                if j < n {
                    assert(pre.key_at(i) == self.key_at(i));
                    assert(pre.key_at(j) == self.key_at(j));
                } else {
                    assert(self.key_at(j) == m@);
                    if i < n - 1 {
                        assert(lex_lt(pre.key_at(i), pre.key_at(n - 1)));
                        lemma_lex_trans(pre.key_at(i), pre.key_at(n - 1), m@);
                    }
                }
            }
            assert(self.labels() =~= pre.labels().push(key@));
            if n == 0 {
                assert(pre.last_key_or_empty() =~= Seq::<char>::empty());
            } else {
                assert(pre.last_key_or_empty() == pre.key_at(n - 1));
            }
            assert(m@ == mid_spec(pre.last_key_or_empty(), Option::None));
            assert forall|i: int| 0 <= i < pre.count() implies #[trigger] self.key_at(i)
                == pre.key_at(i) by {}
            assert(self.key_at(n as int) == m@);
            assert(Self::keys_after_add(pre, *self));
        }
    }

    fn insert(&mut self, key: &str, idx: usize) -> (r: Result<(), PosError>) {
        let ghost pre = *self;
        let n = self.records.len();
        if idx > n {
            return Err(PosError::OutOfBounds);
        }
        let left: Point = if idx == 0 {
            Point::Start
        } else {
            Point::Mid(self.records[idx - 1].1.as_str())
        };
        let right: Point = if idx == n {
            Point::End
        } else {
            Point::Mid(self.records[idx].1.as_str())
        };
        proof {
            if idx > 0 {
                assert(valid_key(pre.key_at(idx - 1)));
            }
            if idx < n {
                assert(valid_key(pre.key_at(idx as int)));
            }
            if 0 < idx && idx < n {
                assert(lex_lt(pre.key_at(idx - 1), pre.key_at(idx as int)));
            }
            assert(point_lt(left, right));
        }
        let m: String = match self.mid_point(left, right) {
            Ok(m) => m,
            Err(_) => unreached(),
        };
        self.records.insert(idx, (key.to_owned(), m));
        proof {
            let cnt = self.count() as int;
            assert forall|i: int| 0 <= i < cnt implies #[trigger] self.key_at(i) == (if i
                < idx {
                pre.key_at(i)
            } else if i == idx {
                m@
            } else {
                pre.key_at(i - 1)
            }) by {
                assert(self.records@ == pre.records@.insert(idx as int, self.records@[idx as int]));
            }
            // The new key lies above every key left of the slot and below every
            // key right of it.
            assert forall|i: int| 0 <= i < idx implies lex_lt(pre.key_at(i), m@) by {
                assert(lex_lt(point_seq(left), m@));
                assert(point_seq(left) == pre.key_at(idx - 1));
                if i < idx - 1 {
                    assert(lex_lt(pre.key_at(i), pre.key_at(idx - 1)));
                    lemma_lex_trans(pre.key_at(i), pre.key_at(idx - 1), m@);
                }
            }
            assert forall|j: int| idx <= j < n implies lex_lt(m@, pre.key_at(j)) by {
                assert(lex_lt(m@, pre.key_at(idx as int)));
                if j > idx {
                    assert(lex_lt(pre.key_at(idx as int), pre.key_at(j)));
                    lemma_lex_trans(m@, pre.key_at(idx as int), pre.key_at(j));
                }
            }
            assert forall|i: int| 0 <= i < cnt implies valid_key(#[trigger] self.key_at(i)) by {}
            assert forall|i: int, j: int| 0 <= i < j < cnt implies lex_lt(
                #[trigger] self.key_at(i),
                #[trigger] self.key_at(j),
            ) by {}
            assert(self.labels() =~= pre.labels().insert(idx as int, key@));
            if idx == 0 {
                assert(point_seq(left) =~= Seq::<char>::empty());
            } else {
                assert(point_seq(left) == pre.key_at(idx - 1));
            }
            if idx == n {
                assert(point_right(right) == Option::<Seq<char>>::None);
            } else {
                assert(point_right(right) == Option::Some(pre.key_at(idx as int)));
            }
            assert(self.key_at(idx as int) == m@);
            assert forall|i: int| 0 <= i < idx implies #[trigger] self.key_at(i) == pre.key_at(
                i,
            ) by {}
            assert forall|i: int| idx <= i < pre.count() implies #[trigger] self.key_at(i + 1)
                == pre.key_at(i) by {}
            assert(Self::keys_after_insert(pre, *self, idx as int));
        }
        Ok(())
    }

    fn shift(&mut self, from: usize, to: usize) -> (r: Result<(), PosError>) {
        let ghost pre = *self;
        let n = self.records.len();
        if from >= n || to >= n {
            return Err(PosError::OutOfBounds);
        }
        let label_from: String = self.records[from].0.clone();
        let label_to: String = self.records[to].0.clone();
        self.records[from].0 = label_to;
        self.records[to].0 = label_from;
        proof {
            assert forall|i: int| 0 <= i < self.count() implies #[trigger] self.key_at(i)
                == pre.key_at(i) by {}
            assert(self.labels() =~= pre.labels().update(from as int, pre.labels()[to as int])
                .update(to as int, pre.labels()[from as int]));
        }
        Ok(())
    }

    fn delete(&mut self, idx: usize) -> (r: Result<String, PosError>) {
        let ghost pre = *self;
        let n = self.records.len();
        if idx >= n {
            return Err(PosError::OutOfBounds);
        }
        let rec = self.records.remove(idx);
        proof {
            let cnt = self.count() as int;
            assert forall|i: int| 0 <= i < cnt implies #[trigger] self.key_at(i) == (if i
                < idx {
                pre.key_at(i)
            } else {
                pre.key_at(i + 1)
            }) by {}
            assert forall|i: int, j: int| 0 <= i < j < cnt implies lex_lt(
                #[trigger] self.key_at(i),
                #[trigger] self.key_at(j),
            ) by {}
            assert(self.labels() =~= pre.labels().remove(idx as int));
            assert(Self::keys_after_delete(pre, *self, idx as int));
        }
        Ok(rec.0)
    }

    fn keys(&self) -> (r: Vec<String>) {
        let n = self.records.len();
        let mut out: Vec<String> = Vec::new();
        let mut i: usize = 0;
        while i < n
            invariant
                i <= n,
                n == self.records@.len(),
                out@.len() == i,
                forall|j: int| 0 <= j < i ==> #[trigger] out@[j]@ == self.records@[j].0@,
            decreases n - i,
        {
            out.push(self.records[i].0.clone());
            i = i + 1;
        }
        proof {
            assert(out.deep_view() =~= self.labels());
        }
        out
    }

    fn order(&self) -> (r: Vec<String>) {
        // Keys strictly ascend in slot order (wf), so the ascending key order
        // of the records is their slot order.
        proof {
            assert(self.sorted_by_keys());
        }
        let n = self.records.len();
        let mut out: Vec<String> = Vec::new();
        let mut i: usize = 0;
        while i < n
            invariant
                i <= n,
                n == self.records@.len(),
                out@.len() == i,
                forall|j: int| 0 <= j < i ==> #[trigger] out@[j]@ == self.records@[j].0@,
            decreases n - i,
        {
            out.push(self.records[i].0.clone());
            i = i + 1;
        }
        proof {
            assert(out.deep_view() =~= self.labels());
        }
        out
    }
}

} // verus!
