//! The recursive type-signature grammar of the wire format: the `Signature`
//! type, its mathematical model, the parser over signature text, and the
//! exact inverse `to_text`, proved to round-trip.

use vstd::prelude::*;

use crate::error::Error;

verus! {

broadcast use vstd::std_specs::vec::group_vec_axioms, vstd::seq::group_seq_axioms;

/// One wire type, as the compact signature grammar describes it.
#[derive(Debug, PartialEq, Eq)]
pub enum Signature {
    Byte,
    Bool,
    Int16,
    UInt16,
    Int32,
    UInt32,
    Int64,
    UInt64,
    Double,
    Str,
    ObjectPath,
    Sig,
    Array(Box<Signature>),
    Struct(Vec<Signature>),
    Dict(Box<Signature>, Box<Signature>),
    Variant,
    UnixFd,
}

/// Mathematical model of a signature: the same shape with `Seq` members.
#[verifier::ext_equal]
pub enum SigModel {
    Byte,
    Bool,
    Int16,
    UInt16,
    Int32,
    UInt32,
    Int64,
    UInt64,
    Double,
    Str,
    ObjectPath,
    Sig,
    Array(Box<SigModel>),
    Struct(Seq<SigModel>),
    Dict(Box<SigModel>, Box<SigModel>),
    Variant,
    UnixFd,
}

/// The models of a sequence of signatures, elementwise.
pub open spec fn sigs_view(s: Seq<Signature>) -> Seq<SigModel>
    decreases s,
{
    if s.len() == 0 {
        Seq::empty()
    } else {
        seq![sig_view(s[0])] + sigs_view(s.drop_first())
    }
}

pub open spec fn sig_view(s: Signature) -> SigModel
    decreases s,
{
    match s {
        Signature::Byte => SigModel::Byte,
        Signature::Bool => SigModel::Bool,
        Signature::Int16 => SigModel::Int16,
        Signature::UInt16 => SigModel::UInt16,
        Signature::Int32 => SigModel::Int32,
        Signature::UInt32 => SigModel::UInt32,
        Signature::Int64 => SigModel::Int64,
        Signature::UInt64 => SigModel::UInt64,
        Signature::Double => SigModel::Double,
        Signature::Str => SigModel::Str,
        Signature::ObjectPath => SigModel::ObjectPath,
        Signature::Sig => SigModel::Sig,
        Signature::Array(e) => SigModel::Array(Box::new(sig_view(*e))),
        Signature::Struct(ms) => SigModel::Struct(sigs_view(ms@)),
        Signature::Dict(k, v) => SigModel::Dict(
            Box::new(sig_view(*k)),
            Box::new(sig_view(*v)),
        ),
        Signature::Variant => SigModel::Variant,
        Signature::UnixFd => SigModel::UnixFd,
    }
}

impl View for Signature {
    type V = SigModel;

    open spec fn view(&self) -> SigModel {
        sig_view(*self)
    }
}

impl DeepView for Signature {
    type V = SigModel;

    open spec fn deep_view(&self) -> SigModel {
        sig_view(*self)
    }
}

/// `sigs_view` is the elementwise image of `sig_view`.
pub proof fn lemma_sigs_view_pointwise(s: Seq<Signature>)
    ensures
        sigs_view(s).len() == s.len(),
        forall|i: int| 0 <= i < s.len() ==> sigs_view(s)[i] == sig_view(#[trigger] s[i]),
    decreases s.len(),
{
    if s.len() > 0 {
        lemma_sigs_view_pointwise(s.drop_first());
        assert forall|i: int| 0 <= i < s.len()
            implies sigs_view(s)[i] == sig_view(#[trigger] s[i]) by {
            if i == 0 {
                assert(sigs_view(s)[0] == sig_view(s[0]));
            } else {
                assert(s.drop_first()[i - 1] == s[i]);
                assert(sigs_view(s.drop_first())[i - 1]
                    == sig_view(s.drop_first()[i - 1]));
            }
        }
    }
}

/// Appending a signature appends its model.
pub proof fn lemma_sigs_view_push(s: Seq<Signature>, x: Signature)
    ensures
        sigs_view(s.push(x)) =~= sigs_view(s).push(sig_view(x)),
{
    lemma_sigs_view_pointwise(s.push(x));
    lemma_sigs_view_pointwise(s);
    assert forall|i: int| 0 <= i < s.push(x).len()
        implies sigs_view(s.push(x))[i] == sigs_view(s).push(sig_view(x))[i] by {
        if i < s.len() {
            assert(s.push(x)[i] == s[i]);
        } else {
            assert(s.push(x)[i] == x);
        }
    }
    assert(sigs_view(s.push(x)) =~= sigs_view(s).push(sig_view(x)));
}

/// A signature is basic when it is not a container type; dictionary keys
/// must be basic.
pub open spec fn is_basic(s: SigModel) -> bool {
    match s {
        SigModel::Array(_) => false,
        SigModel::Struct(_) => false,
        SigModel::Dict(_, _) => false,
        SigModel::Variant => false,
        _ => true,
    }
}

/// Well-formedness: every dictionary key is basic and every struct has at
/// least one member, throughout the signature.
pub open spec fn sig_wf(s: SigModel) -> bool
    decreases s,
{
    match s {
        SigModel::Array(e) => sig_wf(*e),
        SigModel::Struct(ms) => ms.len() > 0 && forall|i: int|
            0 <= i < ms.len() ==> sig_wf(#[trigger] ms[i]),
        SigModel::Dict(k, v) => is_basic(*k) && sig_wf(*v),
        _ => true,
    }
}

/// The text of one signature under the compact type-code grammar.
pub open spec fn sig_text(s: SigModel) -> Seq<char>
    decreases s, 1int,
{
    match s {
        SigModel::Byte => seq!['y'],
        SigModel::Bool => seq!['b'],
        SigModel::Int16 => seq!['n'],
        SigModel::UInt16 => seq!['q'],
        SigModel::Int32 => seq!['i'],
        SigModel::UInt32 => seq!['u'],
        SigModel::Int64 => seq!['x'],
        SigModel::UInt64 => seq!['t'],
        SigModel::Double => seq!['d'],
        SigModel::Str => seq!['s'],
        SigModel::ObjectPath => seq!['o'],
        SigModel::Sig => seq!['g'],
        SigModel::Array(e) => seq!['a'] + sig_text(*e),
        SigModel::Struct(ms) => seq!['('] + sig_list_text(ms) + seq![')'],
        SigModel::Dict(k, v) => seq!['a', '{'] + sig_text(*k) + sig_text(*v)
            + seq!['}'],
        SigModel::Variant => seq!['v'],
        SigModel::UnixFd => seq!['h'],
    }
}

/// The concatenated text of a sequence of signatures.
pub open spec fn sig_list_text(ms: Seq<SigModel>) -> Seq<char>
    decreases ms, 0int,
{
    if ms.len() == 0 {
        Seq::empty()
    } else {
        sig_text(ms[0]) + sig_list_text(ms.drop_first())
    }
}

/// The parser of one complete signature starting at position `i`: the
/// parsed signature and the position one past its text, or `None` where
/// the grammar is broken.
pub open spec fn sp_parse_one(t: Seq<char>, i: int) -> Option<(SigModel, int)>
    decreases t.len() - i, 0int,
{
    if i < 0 || i >= t.len() {
        None
    } else {
        let c = t[i];
        if c == 'y' { Some((SigModel::Byte, i + 1)) }
        else if c == 'b' { Some((SigModel::Bool, i + 1)) }
        else if c == 'n' { Some((SigModel::Int16, i + 1)) }
        else if c == 'q' { Some((SigModel::UInt16, i + 1)) }
        else if c == 'i' { Some((SigModel::Int32, i + 1)) }
        else if c == 'u' { Some((SigModel::UInt32, i + 1)) }
        else if c == 'x' { Some((SigModel::Int64, i + 1)) }
        else if c == 't' { Some((SigModel::UInt64, i + 1)) }
        else if c == 'd' { Some((SigModel::Double, i + 1)) }
        else if c == 's' { Some((SigModel::Str, i + 1)) }
        else if c == 'o' { Some((SigModel::ObjectPath, i + 1)) }
        else if c == 'g' { Some((SigModel::Sig, i + 1)) }
        else if c == 'v' { Some((SigModel::Variant, i + 1)) }
        else if c == 'h' { Some((SigModel::UnixFd, i + 1)) }
        else if c == 'a' {
            if i + 1 < t.len() && t[i + 1] == '{' {
                // a dict entry may stand only directly after the array marker
                match sp_parse_one(t, i + 2) {
                    None => None,
                    Some((k, j)) => {
                        if !is_basic(k) {
                            None
                        } else if i + 2 < j && j <= t.len() {
                            match sp_parse_one(t, j) {
                                None => None,
                                Some((v, m)) => {
                                    if m < t.len() && t[m] == '}' {
                                        Some((
                                            SigModel::Dict(Box::new(k), Box::new(v)),
                                            m + 1,
                                        ))
                                    } else {
                                        None
                                    }
                                },
                            }
                        } else {
                            None
                        }
                    },
                }
            } else {
                match sp_parse_one(t, i + 1) {
                    None => None,
                    Some((e, j)) => Some((SigModel::Array(Box::new(e)), j)),
                }
            }
        } else if c == '(' {
            match sp_parse_members(t, i + 1) {
                None => None,
                Some((ms, j)) => {
                    if ms.len() == 0 {
                        None
                    } else {
                        Some((SigModel::Struct(ms), j))
                    }
                },
            }
        } else {
            None
        }
    }
}

/// The parser of a struct's member list: signatures up to and including the
/// closing `)`.
pub open spec fn sp_parse_members(t: Seq<char>, i: int) -> Option<(Seq<SigModel>, int)>
    decreases t.len() - i, 1int,
{
    if i < 0 || i >= t.len() {
        None
    } else if t[i] == ')' {
        Some((Seq::empty(), i + 1))
    } else {
        match sp_parse_one(t, i) {
            None => None,
            Some((m, j)) => {
                if i < j && j <= t.len() {
                    match sp_parse_members(t, j) {
                        None => None,
                        Some((ms, k)) => Some((seq![m] + ms, k)),
                    }
                } else {
                    None
                }
            },
        }
    }
}

/// The parser of a whole signature string: zero or more complete single
/// signatures covering the text exactly.
pub open spec fn sp_parse_sigs(t: Seq<char>, i: int) -> Option<Seq<SigModel>>
    decreases t.len() - i,
{
    if i >= t.len() {
        Some(Seq::empty())
    } else {
        match sp_parse_one(t, i) {
            None => None,
            Some((s, j)) => {
                if i < j && j <= t.len() {
                    match sp_parse_sigs(t, j) {
                        None => None,
                        Some(rest) => Some(seq![s] + rest),
                    }
                } else {
                    None
                }
            },
        }
    }
}

/// A signature text is valid when the parser accepts it whole.
pub open spec fn valid_sig_text(t: Seq<char>) -> bool {
    sp_parse_sigs(t, 0) is Some
}

/// What a successful parse guarantees: the parser advances, stays within
/// the text, returns a well-formed signature, and consumes exactly the
/// text that `sig_text` writes back.
pub proof fn lemma_parse_one_props(t: Seq<char>, i: int)
    ensures
        sp_parse_one(t, i) matches Some((s, j)) ==> {
            &&& i < j <= t.len()
            &&& sig_wf(s)
            &&& sig_text(s) =~= t.subrange(i, j)
        },
    decreases t.len() - i, 0int,
{
    if 0 <= i < t.len() {
        let c = t[i];
        if c == 'a' {
            if i + 1 < t.len() && t[i + 1] == '{' {
                lemma_parse_one_props(t, i + 2);
                if let Some((k, j)) = sp_parse_one(t, i + 2) {
                    if is_basic(k) && i + 2 < j <= t.len() {
                        lemma_parse_one_props(t, j);
                        if let Some((v, m)) = sp_parse_one(t, j) {
                            if m < t.len() && t[m] == '}' {
                                assert(sig_text(SigModel::Dict(Box::new(k), Box::new(v)))
                                    =~= t.subrange(i, m + 1));
                            }
                        }
                    }
                }
            } else {
                lemma_parse_one_props(t, i + 1);
                if let Some((e, j)) = sp_parse_one(t, i + 1) {
                    assert(sig_text(SigModel::Array(Box::new(e)))
                        =~= t.subrange(i, j));
                }
            }
        } else if c == '(' {
            lemma_parse_members_props(t, i + 1);
            if let Some((ms, j)) = sp_parse_members(t, i + 1) {
                if ms.len() > 0 {
                    assert(sig_text(SigModel::Struct(ms)) =~= t.subrange(i, j));
                }
            }
        } else {
            if let Some((s, j)) = sp_parse_one(t, i) {
                assert(sig_text(s) =~= t.subrange(i, j));
            }
        }
    }
}

/// The member-list analogue: the list's concatenated text is the consumed
/// text up to the closing `)`.
pub proof fn lemma_parse_members_props(t: Seq<char>, i: int)
    ensures
        sp_parse_members(t, i) matches Some((ms, j)) ==> {
            &&& i < j <= t.len()
            &&& forall|n: int| 0 <= n < ms.len() ==> sig_wf(#[trigger] ms[n])
            &&& sig_list_text(ms) =~= t.subrange(i, j - 1)
            &&& t[j - 1] == ')'
        },
    decreases t.len() - i, 1int,
{
    if 0 <= i < t.len() {
        if t[i] == ')' {
        } else {
            lemma_parse_one_props(t, i);
            if let Some((m, j)) = sp_parse_one(t, i) {
                if i < j <= t.len() {
                    lemma_parse_members_props(t, j);
                    if let Some((ms, k)) = sp_parse_members(t, j) {
                        let all = seq![m] + ms;
                        assert(all[0] == m);
                        assert(all.drop_first() =~= ms);
                        assert(sig_list_text(all) =~= t.subrange(i, k - 1));
                    }
                }
            }
        }
    }
}

/// A parse of a whole string consumes it exactly: writing the parsed
/// signatures back as text gives the input.  This is the text-side
/// round trip.
pub proof fn lemma_parse_sigs_props(t: Seq<char>, i: int)
    requires
        0 <= i <= t.len(),
    ensures
        sp_parse_sigs(t, i) matches Some(ms) ==> {
            &&& forall|n: int| 0 <= n < ms.len() ==> sig_wf(#[trigger] ms[n])
            &&& sig_list_text(ms) =~= t.subrange(i, t.len() as int)
        },
    decreases t.len() - i,
{
    if i >= t.len() {
        if let Some(ms) = sp_parse_sigs(t, i) {
            assert(sig_list_text(ms) =~= t.subrange(i, t.len() as int));
        }
    } else {
        lemma_parse_one_props(t, i);
        if let Some((s, j)) = sp_parse_one(t, i) {
            if i < j <= t.len() {
                lemma_parse_sigs_props(t, j);
                if let Some(rest) = sp_parse_sigs(t, j) {
                    let all = seq![s] + rest;
                    assert(all[0] == s);
                    assert(all.drop_first() =~= rest);
                    assert(sig_list_text(all) =~= t.subrange(i, t.len() as int));
                }
            }
        }
    }
}

/// Round trip over the whole grammar: for every valid signature text,
/// rendering the parse back to text gives the original text.
pub proof fn lemma_signature_text_roundtrip(t: Seq<char>)
    requires
        valid_sig_text(t),
    ensures
        sp_parse_sigs(t, 0) matches Some(ms) && sig_list_text(ms) == t,
{
    lemma_parse_sigs_props(t, 0);
    if let Some(ms) = sp_parse_sigs(t, 0) {
        assert(t.subrange(0, t.len() as int) =~= t);
    }
}

impl Signature {
    /// True when the signature is a basic (non-container) type.
    pub fn is_basic_type(&self) -> (r: bool)
        ensures
            r == is_basic(self@),
    {
        match self {
            Signature::Array(_) => false,
            Signature::Struct(_) => false,
            Signature::Dict(_, _) => false,
            Signature::Variant => false,
            _ => true,
        }
    }
}

/// A deep copy of a member list, keeping each member's model.
fn clone_sigs(ms: &Vec<Signature>) -> (r: Vec<Signature>)
    ensures
        r@.len() == ms@.len(),
        forall|k: int| 0 <= k < ms@.len() ==> (#[trigger] r@[k])@ == ms@[k]@,
    decreases *ms,
{
    let mut copy: Vec<Signature> = Vec::new();
    let mut n: usize = 0;
    while n < ms.len()
        invariant
            n <= ms.len(),
            copy@.len() == n,
            forall|k: int| 0 <= k < n ==> (#[trigger] copy@[k])@ == ms@[k]@,
        decreases ms.len() - n,
    {
        copy.push(ms[n].clone());
        n = n + 1;
    }
    copy
}

/// Structural equality of two signatures: true exactly when the models
/// are equal.
pub fn sig_eq(a: &Signature, b: &Signature) -> (r: bool)
    ensures
        r == (a@ == b@),
    decreases *a,
{
    match (a, b) {
        (Signature::Byte, Signature::Byte) => true,
        (Signature::Bool, Signature::Bool) => true,
        (Signature::Int16, Signature::Int16) => true,
        (Signature::UInt16, Signature::UInt16) => true,
        (Signature::Int32, Signature::Int32) => true,
        (Signature::UInt32, Signature::UInt32) => true,
        (Signature::Int64, Signature::Int64) => true,
        (Signature::UInt64, Signature::UInt64) => true,
        (Signature::Double, Signature::Double) => true,
        (Signature::Str, Signature::Str) => true,
        (Signature::ObjectPath, Signature::ObjectPath) => true,
        (Signature::Sig, Signature::Sig) => true,
        (Signature::Variant, Signature::Variant) => true,
        (Signature::UnixFd, Signature::UnixFd) => true,
        (Signature::Array(x), Signature::Array(y)) => sig_eq(x, y),
        (Signature::Dict(xk, xv), Signature::Dict(yk, yv)) => {
            sig_eq(xk, yk) && sig_eq(xv, yv)
        },
        (Signature::Struct(xs), Signature::Struct(ys)) => sigs_eq(xs, ys),
        _ => {
            proof {
                assert(a@ != b@);
            }
            false
        },
    }
}

/// Elementwise equality of two member lists, by their models.
#[verifier::loop_isolation(false)]
fn sigs_eq(xs: &Vec<Signature>, ys: &Vec<Signature>) -> (r: bool)
    ensures
        r == (sigs_view(xs@) == sigs_view(ys@)),
    decreases *xs,
{
    proof {
        lemma_sigs_view_pointwise(xs@);
        lemma_sigs_view_pointwise(ys@);
    }
    if xs.len() != ys.len() {
        return false;
    }
    let mut i: usize = 0;
    while i < xs.len()
        invariant
            i <= xs@.len(),
            forall|k: int| 0 <= k < i ==> sigs_view(xs@)[k] == sigs_view(ys@)[k],
        decreases xs@.len() - i,
    {
        if !sig_eq(&xs[i], &ys[i]) {
            proof {
                assert(sigs_view(xs@)[i as int] != sigs_view(ys@)[i as int]);
                if sigs_view(xs@) == sigs_view(ys@) {
                    assert(false);
                }
            }
            return false;
        }
        i = i + 1;
    }
    proof {
        assert(sigs_view(xs@) =~= sigs_view(ys@));
    }
    true
}

impl Clone for Signature {
    /// A deep copy with the same model.
    fn clone(&self) -> (r: Self)
        ensures
            r@ == self@,
        decreases *self,
    {
        match self {
            Signature::Byte => Signature::Byte,
            Signature::Bool => Signature::Bool,
            Signature::Int16 => Signature::Int16,
            Signature::UInt16 => Signature::UInt16,
            Signature::Int32 => Signature::Int32,
            Signature::UInt32 => Signature::UInt32,
            Signature::Int64 => Signature::Int64,
            Signature::UInt64 => Signature::UInt64,
            Signature::Double => Signature::Double,
            Signature::Str => Signature::Str,
            Signature::ObjectPath => Signature::ObjectPath,
            Signature::Sig => Signature::Sig,
            Signature::Array(e) => Signature::Array(Box::new((**e).clone())),
            Signature::Struct(ms) => {
                let copy = clone_sigs(ms);
                let r = Signature::Struct(copy);
                proof {
                    let cv = r->Struct_0@;
                    lemma_sigs_view_pointwise(cv);
                    lemma_sigs_view_pointwise(ms@);
                    assert forall|k: int| 0 <= k < cv.len()
                        implies sigs_view(cv)[k] == sigs_view(ms@)[k] by {
                        assert(cv[k]@ == ms@[k]@);
                    }
                    assert(sigs_view(cv) =~= sigs_view(ms@));
                    assert(sig_view(r) =~= sig_view(*self));
                }
                r
            },
            Signature::Dict(k, v) => Signature::Dict(
                Box::new((**k).clone()),
                Box::new((**v).clone()),
            ),
            Signature::Variant => Signature::Variant,
            Signature::UnixFd => Signature::UnixFd,
        }
    }
}

/// The parser of one signature at `i`, mirroring `sp_parse_one` exactly.
fn parse_one(text: &str, i: usize) -> (r: Option<(Signature, usize)>)
    requires
        i <= text@.len(),
    ensures
        match r {
            Some((s, j)) => sp_parse_one(text@, i as int) == Some((s@, j as int))
                && i < j <= text@.len(),
            None => sp_parse_one(text@, i as int) is None,
        },
    decreases text@.len() - i, 0int,
{
    let n = text.unicode_len();
    if i >= n {
        return None;
    }
    let c = text.get_char(i);
    match c {
        'y' => Some((Signature::Byte, i + 1)),
        'b' => Some((Signature::Bool, i + 1)),
        'n' => Some((Signature::Int16, i + 1)),
        'q' => Some((Signature::UInt16, i + 1)),
        'i' => Some((Signature::Int32, i + 1)),
        'u' => Some((Signature::UInt32, i + 1)),
        'x' => Some((Signature::Int64, i + 1)),
        't' => Some((Signature::UInt64, i + 1)),
        'd' => Some((Signature::Double, i + 1)),
        's' => Some((Signature::Str, i + 1)),
        'o' => Some((Signature::ObjectPath, i + 1)),
        'g' => Some((Signature::Sig, i + 1)),
        'v' => Some((Signature::Variant, i + 1)),
        'h' => Some((Signature::UnixFd, i + 1)),
        'a' => {
            if i + 1 < n && text.get_char(i + 1) == '{' {
                match parse_one(text, i + 2) {
                    None => None,
                    Some((k, j)) => {
                        if !k.is_basic_type() {
                            None
                        } else {
                            proof {
                                lemma_parse_one_props(text@, i + 2);
                            }
                            match parse_one(text, j) {
                                None => None,
                                Some((v, m)) => {
                                    if m < n && text.get_char(m) == '}' {
                                        Some((
                                            Signature::Dict(Box::new(k), Box::new(v)),
                                            m + 1,
                                        ))
                                    } else {
                                        None
                                    }
                                },
                            }
                        }
                    },
                }
            } else {
                match parse_one(text, i + 1) {
                    None => None,
                    Some((e, j)) => Some((Signature::Array(Box::new(e)), j)),
                }
            }
        },
        '(' => {
            match parse_members(text, i + 1) {
                None => None,
                Some((ms, j)) => {
                    if ms.len() == 0 {
                        proof {
                            lemma_sigs_view_pointwise(ms@);
                        }
                        None
                    } else {
                        proof {
                            lemma_sigs_view_pointwise(ms@);
                        }
                        Some((Signature::Struct(ms), j))
                    }
                },
            }
        },
        _ => None,
    }
}

/// The member-list parser, mirroring `sp_parse_members`.
fn parse_members(text: &str, i: usize) -> (r: Option<(Vec<Signature>, usize)>)
    requires
        i <= text@.len(),
    ensures
        match r {
            Some((ms, j)) => sp_parse_members(text@, i as int)
                == Some((sigs_view(ms@), j as int)) && i < j <= text@.len(),
            None => sp_parse_members(text@, i as int) is None,
        },
    decreases text@.len() - i, 1int,
{
    let n = text.unicode_len();
    if i >= n {
        return None;
    }
    if text.get_char(i) == ')' {
        let empty: Vec<Signature> = Vec::new();
        return Some((empty, i + 1));
    }
    match parse_one(text, i) {
        None => None,
        Some((m, j)) => {
            match parse_members(text, j) {
                None => None,
                Some((ms, k)) => {
                    let ghost gm = m;
                    let ghost msv = ms@;
                    let ghost msm = sigs_view(ms@);
                    let mut all = ms;
                    all.insert(0, m);
                    proof {
                        assert(all@ =~= msv.insert(0, gm));
                        lemma_sigs_view_pointwise(all@);
                        lemma_sigs_view_pointwise(msv);
                        assert forall|q: int| 0 <= q < all@.len()
                            implies sigs_view(all@)[q]
                                == (seq![sig_view(gm)] + msm)[q] by {
                            if q == 0 {
                                assert(all@[0] == gm);
                            } else {
                                assert(all@[q] == msv[q - 1]);
                            }
                        }
                        assert(sigs_view(all@) =~= seq![sig_view(gm)] + msm);
                    }
                    Some((all, k))
                },
            }
        },
    }
}

/// Parses a signature string into its sequence of complete signatures.
/// Returns `Ok` exactly on the valid texts of the grammar, and
/// `MalformedSignature` on every other text: unknown type codes, unmatched
/// brackets, a dict with a non-basic key, or an empty struct.
#[verifier::loop_isolation(false)]
pub fn parse(text: &str) -> (r: Result<Vec<Signature>, Error>)
    ensures
        match r {
            Ok(sigs) => sp_parse_sigs(text@, 0) == Some(sigs_view(sigs@)),
            Err(e) => !valid_sig_text(text@) && e == Error::MalformedSignature,
        },
{
    let n = text.unicode_len();
    let mut out: Vec<Signature> = Vec::new();
    let mut i: usize = 0;
    while i < n
        invariant
            i <= n,
            sp_parse_sigs(text@, i as int) matches Some(tail)
                ==> sp_parse_sigs(text@, 0) == Some(sigs_view(out@) + tail),
            sp_parse_sigs(text@, i as int) is None
                ==> sp_parse_sigs(text@, 0) is None,
        decreases n - i,
    {
        match parse_one(text, i) {
            None => {
                return Err(Error::MalformedSignature);
            },
            Some((s, j)) => {
                let ghost outv = out@;
                let ghost gs = s;
                let ghost gi = i as int;
                out.push(s);
                proof {
                    lemma_sigs_view_push(outv, gs);
                    assert(out@ == outv.push(gs));
                    let prev = sigs_view(outv);
                    assert(sigs_view(out@) == prev.push(sig_view(gs)));
                    if sp_parse_sigs(text@, j as int) is Some {
                        let tj = sp_parse_sigs(text@, j as int)->Some_0;
                        assert(sp_parse_sigs(text@, gi) == Some(seq![sig_view(gs)] + tj));
                        assert(prev + (seq![sig_view(gs)] + tj)
                            =~= prev.push(sig_view(gs)) + tj);
                    }
                }
                i = j;
            },
        }
    }
    proof {
        assert(sp_parse_sigs(text@, i as int) == Some(Seq::<SigModel>::empty()));
        assert(sigs_view(out@) + Seq::<SigModel>::empty() =~= sigs_view(out@));
    }
    Ok(out)
}

/// Parses exactly one complete signature; trailing input is malformed.
pub fn parse_single(text: &str) -> (r: Result<Signature, Error>)
    ensures
        match r {
            Ok(s) => sp_parse_one(text@, 0) == Some((s@, text@.len() as int)),
            Err(e) => e == Error::MalformedSignature
                && !(sp_parse_one(text@, 0) matches Some((_s, j)) && j == text@.len()),
        },
{
    let n = text.unicode_len();
    match parse_one(text, 0) {
        Some((s, j)) if j == n => Ok(s),
        _ => Err(Error::MalformedSignature),
    }
}

/// Appending one signature to a list appends its text to the list's text.
pub proof fn lemma_sig_list_text_push(s: Seq<SigModel>, x: SigModel)
    ensures
        sig_list_text(s.push(x)) == sig_list_text(s) + sig_text(x),
    decreases s.len(),
{
    if s.len() == 0 {
        assert(s.push(x)[0] == x);
        assert(s.push(x).drop_first() =~= Seq::<SigModel>::empty());
        assert(sig_list_text(Seq::<SigModel>::empty()) == Seq::<char>::empty());
        assert(sig_list_text(s.push(x))
            == sig_text(x) + sig_list_text(s.push(x).drop_first()));
        assert(sig_list_text(s.push(x)) =~= sig_list_text(s) + sig_text(x));
    } else {
        assert(s.push(x)[0] == s[0]);
        assert(s.push(x).drop_first() =~= s.drop_first().push(x));
        lemma_sig_list_text_push(s.drop_first(), x);
        assert(sig_list_text(s.push(x))
            == sig_text(s[0]) + sig_list_text(s.push(x).drop_first()));
        assert(sig_list_text(s.push(x)) =~= sig_list_text(s) + sig_text(x));
    }
}

/// Appends the text of one signature, the exact inverse of the parser.
#[verifier::loop_isolation(false)]
fn write_sig(out: &mut String, s: &Signature)
    ensures
        final(out)@ == old(out)@ + sig_text(s@),
    decreases *s,
{
    match s {
        Signature::Byte => out.push('y'),
        Signature::Bool => out.push('b'),
        Signature::Int16 => out.push('n'),
        Signature::UInt16 => out.push('q'),
        Signature::Int32 => out.push('i'),
        Signature::UInt32 => out.push('u'),
        Signature::Int64 => out.push('x'),
        Signature::UInt64 => out.push('t'),
        Signature::Double => out.push('d'),
        Signature::Str => out.push('s'),
        Signature::ObjectPath => out.push('o'),
        Signature::Sig => out.push('g'),
        Signature::Array(e) => {
            out.push('a');
            write_sig(out, e);
        },
        Signature::Struct(ms) => {
            out.push('(');
            let ghost open_mark = out@;
            let ghost mview = sigs_view(ms@);
            proof {
                lemma_sigs_view_pointwise(ms@);
                assert(mview.take(0) =~= Seq::<SigModel>::empty());
                assert(sig_list_text(Seq::<SigModel>::empty()) == Seq::<char>::empty());
                assert(open_mark + sig_list_text(mview.take(0)) =~= open_mark);
            }
            let mut idx: usize = 0;
            while idx < ms.len()
                invariant
                    idx <= ms@.len(),
                    out@ == open_mark + sig_list_text(mview.take(idx as int)),
                decreases ms@.len() - idx,
            {
                write_sig(out, &ms[idx]);
                proof {
                    lemma_sig_list_text_push(mview.take(idx as int), mview[idx as int]);
                    assert(mview.take(idx + 1)
                        =~= mview.take(idx as int).push(mview[idx as int]));
                    assert(out@ =~= open_mark + sig_list_text(mview.take(idx + 1)));
                }
                idx = idx + 1;
            }
            proof {
                assert(mview.take(ms@.len() as int) =~= mview);
            }
            out.push(')');
        },
        Signature::Dict(k, v) => {
            out.push('a');
            out.push('{');
            write_sig(out, k);
            write_sig(out, v);
            out.push('}');
        },
        Signature::Variant => out.push('v'),
        Signature::UnixFd => out.push('h'),
    }
    proof {
        assert(final(out)@ =~= old(out)@ + sig_text(s@));
    }
}

/// The text of one signature.
pub fn to_text(s: &Signature) -> (r: String)
    ensures
        r@ == sig_text(s@),
{
    let mut out = String::new();
    write_sig(&mut out, s);
    proof {
        assert(out@ =~= sig_text(s@));
    }
    out
}

/// The concatenated text of a sequence of signatures, as sent on the wire.
#[verifier::loop_isolation(false)]
pub fn to_text_all(sigs: &Vec<Signature>) -> (r: String)
    ensures
        r@ == sig_list_text(sigs_view(sigs@)),
{
    let ghost mview = sigs_view(sigs@);
    proof {
        lemma_sigs_view_pointwise(sigs@);
        assert(mview.take(0) =~= Seq::<SigModel>::empty());
        assert(sig_list_text(Seq::<SigModel>::empty()) == Seq::<char>::empty());
    }
    let mut out = String::new();
    let mut idx: usize = 0;
    while idx < sigs.len()
        invariant
            idx <= sigs@.len(),
            out@ == sig_list_text(mview.take(idx as int)),
        decreases sigs@.len() - idx,
    {
        write_sig(&mut out, &sigs[idx]);
        proof {
            lemma_sig_list_text_push(mview.take(idx as int), mview[idx as int]);
            assert(mview.take(idx + 1)
                =~= mview.take(idx as int).push(mview[idx as int]));
            assert(out@ =~= sig_list_text(mview.take(idx + 1)));
        }
        idx = idx + 1;
    }
    proof {
        assert(mview.take(sigs@.len() as int) =~= mview);
    }
    out
}

} // verus!
