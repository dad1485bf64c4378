//! Glob-style matching over dot-segmented bus names: a pattern is a list
//! of segment matchers; a lone `*` matches exactly one non-empty segment,
//! a trailing `**` matches all remaining segments.

use vstd::prelude::*;

use crate::error::Error;
use crate::numtext::clone_string;

verus! {

broadcast use vstd::std_specs::vec::group_vec_axioms, vstd::seq::group_seq_axioms;

/// One segment matcher.
#[derive(Debug, PartialEq, Eq)]
pub enum SegMatcher {
    /// Matches one segment whose text is exactly this.
    Exact(String),
    /// Matches any one non-empty segment.
    AnyOne,
    /// Matches all remaining segments, zero or more; final position only.
    Rest,
}

/// The model of a segment matcher.
pub enum MatchModel {
    Exact(Seq<char>),
    AnyOne,
    Rest,
}

impl View for SegMatcher {
    type V = MatchModel;

    open spec fn view(&self) -> MatchModel {
        match self {
            SegMatcher::Exact(t) => MatchModel::Exact(t@),
            SegMatcher::AnyOne => MatchModel::AnyOne,
            SegMatcher::Rest => MatchModel::Rest,
        }
    }
}

/// The position of the first dot at or after `from`; the length if none.
pub open spec fn find_dot(s: Seq<char>, from: int) -> int
    decreases s.len() - from,
{
    if from < 0 || from >= s.len() {
        s.len() as int
    } else if s[from] == '.' {
        from
    } else {
        find_dot(s, from + 1)
    }
}

/// The dot-separated segments of `s` from `from` on.
pub open spec fn split_from(s: Seq<char>, from: int) -> Seq<Seq<char>>
    decreases s.len() - from,
{
    let d = find_dot(s, from);
    if from <= d && d < s.len() {
        seq![s.subrange(from, d)] + split_from(s, d + 1)
    } else {
        seq![s.subrange(if 0 <= from && from <= s.len() { from } else { 0 },
            s.len() as int)]
    }
}

/// The segments of a whole name.
pub open spec fn split_segs(s: Seq<char>) -> Seq<Seq<char>> {
    split_from(s, 0)
}

pub open spec fn star_tok() -> Seq<char> {
    seq!['*']
}

pub open spec fn rest_tok() -> Seq<char> {
    seq!['*', '*']
}

/// A pattern text is valid when no multi-level wildcard stands anywhere
/// but the final segment.
pub open spec fn pattern_valid(t: Seq<char>) -> bool {
    forall|i: int| 0 <= i < split_segs(t).len() - 1
        ==> #[trigger] split_segs(t)[i] != rest_tok()
}

/// The matcher one segment of pattern text compiles to.
pub open spec fn seg_model(seg: Seq<char>) -> MatchModel {
    if seg == star_tok() {
        MatchModel::AnyOne
    } else if seg == rest_tok() {
        MatchModel::Rest
    } else {
        MatchModel::Exact(seg)
    }
}

/// What a valid pattern text compiles to.
pub open spec fn sp_compile(t: Seq<char>) -> Seq<MatchModel> {
    Seq::new(split_segs(t).len(), |i: int| seg_model(split_segs(t)[i]))
}

/// Whether matchers accept segments: exact and single-level matchers each
/// consume one segment, a trailing multi-level matcher consumes the rest,
/// and without one the counts must agree exactly.
pub open spec fn sp_match(ms: Seq<MatchModel>, segs: Seq<Seq<char>>) -> bool
    decreases ms.len(),
{
    if ms.len() == 0 {
        segs.len() == 0
    } else {
        match ms[0] {
            MatchModel::Rest => true,
            MatchModel::AnyOne => segs.len() > 0 && segs[0].len() > 0
                && sp_match(ms.drop_first(), segs.drop_first()),
            MatchModel::Exact(t) => segs.len() > 0 && segs[0] == t
                && sp_match(ms.drop_first(), segs.drop_first()),
        }
    }
}

/// A compiled bus-name pattern.
#[derive(Debug, PartialEq, Eq)]
pub struct Pattern {
    pub matchers: Vec<SegMatcher>,
}

impl View for Pattern {
    type V = Seq<MatchModel>;

    open spec fn view(&self) -> Seq<MatchModel> {
        Seq::new(self.matchers@.len(), |i: int| self.matchers@[i]@)
    }
}

/// Splits a name into its dot-separated segments.
#[verifier::loop_isolation(false)]
fn split(name: &str) -> (r: Vec<String>)
    ensures
        r@.len() == split_segs(name@).len(),
        forall|i: int| 0 <= i < r@.len()
            ==> (#[trigger] r@[i])@ == split_segs(name@)[i],
{
    let n = name.unicode_len();
    let mut out: Vec<String> = Vec::new();
    let mut seg = String::new();
    let mut from: usize = 0;
    let mut i: usize = 0;
    while i < n
        invariant
            from <= i <= n,
            n == name@.len(),
            seg@ == name@.subrange(from as int, i as int),
            forall|k: int| from <= k < i ==> name@[k] != '.',
            forall|k: int| 0 <= k < out@.len()
                ==> (#[trigger] out@[k])@ == split_segs(name@)[k],
            out@.len() + split_from(name@, from as int).len()
                == split_segs(name@).len(),
            split_from(name@, from as int)
                =~= split_segs(name@).skip(out@.len() as int),
        decreases n - i,
    {
        let c = name.get_char(i);
        if c == '.' {
            proof {
                lemma_find_dot_at(name@, from as int, i as int);
                let gl = out@.len() as int;
                let sm = split_segs(name@);
                assert(split_from(name@, from as int)
                    == seq![name@.subrange(from as int, i as int)]
                        + split_from(name@, i + 1));
                assert(sm.skip(gl)
                    =~= seq![seg@] + split_from(name@, i + 1));
                assert(sm.skip(gl)[0] == sm[gl]);
                assert(sm[gl] == seg@);
                assert(sm.skip(gl + 1) =~= sm.skip(gl).drop_first());
                assert(split_from(name@, i + 1) =~= sm.skip(gl + 1));
            }
            out.push(seg);
            seg = String::new();
            from = i + 1;
            proof {
                assert(seg@ =~= name@.subrange(from as int, from as int));
            }
        } else {
            seg.push(c);
            proof {
                assert(seg@ =~= name@.subrange(from as int, i + 1));
            }
        }
        i = i + 1;
    }
    proof {
        lemma_find_dot_none(name@, from as int, n as int);
        let gl = out@.len() as int;
        let sm = split_segs(name@);
        assert(split_from(name@, from as int)
            =~= seq![name@.subrange(from as int, n as int)]);
        assert(sm.skip(gl) =~= seq![name@.subrange(from as int, n as int)]);
        assert(gl + 1 == sm.len());
        assert(sm.skip(gl)[0] == sm[gl]);
        assert(sm[gl] == seg@);
    }
    out.push(seg);
    out
}

/// When every character from `from` up to `i` is not a dot and `i` holds
/// one, the first dot from `from` is at `i`.
proof fn lemma_find_dot_at(s: Seq<char>, from: int, i: int)
    requires
        0 <= from <= i < s.len(),
        forall|k: int| from <= k < i ==> s[k] != '.',
        s[i] == '.',
    ensures
        find_dot(s, from) == i,
    decreases i - from,
{
    if from < i {
        lemma_find_dot_at(s, from + 1, i);
    }
}

/// When no character from `from` on is a dot, there is no dot.
proof fn lemma_find_dot_none(s: Seq<char>, from: int, n: int)
    requires
        0 <= from <= n,
        n == s.len(),
        forall|k: int| from <= k < n ==> s[k] != '.',
    ensures
        find_dot(s, from) == s.len(),
    decreases n - from,
{
    if from < n {
        lemma_find_dot_none(s, from + 1, n);
    }
}

impl Pattern {
    /// Compiles a pattern text, splitting on dots: a lone `*` becomes a
    /// single-segment matcher, a lone `**` the multi-level matcher, any
    /// other segment an exact matcher.  Rejects every pattern whose
    /// multi-level wildcard is not in final position, and only those.
    #[verifier::loop_isolation(false)]
    pub fn compile(text: &str) -> (r: Result<Pattern, Error>)
        ensures
            match r {
                Ok(p) => pattern_valid(text@) && p@ =~= sp_compile(text@),
                Err(e) => !pattern_valid(text@) && e == Error::InvalidPattern,
            },
    {
        let segs = split(text);
        let star = star_text();
        let rest = rest_text();
        let mut matchers: Vec<SegMatcher> = Vec::new();
        let mut i: usize = 0;
        while i < segs.len()
            invariant
                i <= segs@.len(),
                matchers@.len() == i,
                forall|k: int| 0 <= k < i
                    ==> (#[trigger] matchers@[k])@ == seg_model(split_segs(text@)[k]),
                forall|k: int| 0 <= k < i && k < segs@.len() - 1
                    ==> split_segs(text@)[k] != rest_tok(),
            decreases segs@.len() - i,
        {
            let seg = &segs[i];
            let ghost segm = split_segs(text@)[i as int];
            proof {
                assert(seg@ == segm);
                assert(star_tok().len() == 1 && rest_tok().len() == 2);
            }
            if string_eq(seg, &rest) {
                if i + 1 < segs.len() {
                    return Err(Error::InvalidPattern);
                }
                matchers.push(SegMatcher::Rest);
                proof {
                    assert(matchers@[i as int] == SegMatcher::Rest);
                    assert(seg_model(segm) is Rest);
                }
            } else if string_eq(seg, &star) {
                matchers.push(SegMatcher::AnyOne);
                proof {
                    assert(matchers@[i as int] == SegMatcher::AnyOne);
                    assert(seg_model(segm) is AnyOne);
                }
            } else {
                let copy = clone_string(seg);
                matchers.push(SegMatcher::Exact(copy));
                proof {
                    assert(matchers@[i as int]@ == MatchModel::Exact(segm));
                    assert(seg_model(segm) == MatchModel::Exact(segm));
                }
            }
            proof {
                assert(matchers@[i as int]@
                    == seg_model(split_segs(text@)[i as int]));
            }
            i = i + 1;
        }
        let p = Pattern { matchers };
        proof {
            assert(p@ =~= sp_compile(text@));
        }
        Ok(p)
    }

    /// Whether the pattern accepts a name, matching segment by segment.
    #[verifier::loop_isolation(false)]
    pub fn matches(&self, name: &str) -> (r: bool)
        ensures
            r == sp_match(self@, split_segs(name@)),
    {
        let segs = split(name);
        let ghost sm = split_segs(name@);
        proof {
            assert(self@.skip(0) =~= self@);
            assert(sm.skip(0) =~= sm);
        }
        let mut i: usize = 0;
        while i < self.matchers.len()
            invariant
                i <= self.matchers@.len(),
                i <= sm.len(),
                segs@.len() == sm.len(),
                forall|k: int| 0 <= k < segs@.len()
                    ==> (#[trigger] segs@[k])@ == sm[k],
                sp_match(self@, sm)
                    == sp_match(self@.skip(i as int), sm.skip(i as int)),
            decreases self.matchers@.len() - i,
        {
            let ghost mtail = self@.skip(i as int);
            let ghost stail = sm.skip(i as int);
            proof {
                assert(mtail[0] == self@[i as int]);
                assert(mtail.drop_first() =~= self@.skip(i + 1));
                if stail.len() > 0 {
                    assert(stail[0] == sm[i as int]);
                    assert(stail.drop_first() =~= sm.skip(i + 1));
                }
            }
            match &self.matchers[i] {
                SegMatcher::Rest => {
                    return true;
                },
                SegMatcher::AnyOne => {
                    if i >= segs.len() {
                        return false;
                    }
                    if segs[i].as_str().unicode_len() == 0 {
                        return false;
                    }
                },
                SegMatcher::Exact(t) => {
                    if i >= segs.len() {
                        return false;
                    }
                    if !string_eq(&segs[i], t) {
                        return false;
                    }
                },
            }
            proof {
                assert(sp_match(mtail, stail)
                    == sp_match(self@.skip(i + 1), sm.skip(i + 1)));
            }
            i = i + 1;
        }
        proof {
            assert(self@.skip(i as int) =~= Seq::<MatchModel>::empty());
        }
        i == segs.len()
    }
}

/// The single-level wildcard token.
fn star_text() -> (r: String)
    ensures
        r@ == star_tok(),
{
    let mut s = String::new();
    s.push('*');
    proof {
        assert(s@ =~= star_tok());
    }
    s
}

/// The multi-level wildcard token.
fn rest_text() -> (r: String)
    ensures
        r@ == rest_tok(),
{
    let mut s = String::new();
    s.push('*');
    s.push('*');
    proof {
        assert(s@ =~= rest_tok());
    }
    s
}

/// Character equality of two strings.
fn string_eq(a: &String, b: &String) -> (r: bool)
    ensures
        r == (a@ == b@),
{
    a.eq(b)
}

} // verus!
