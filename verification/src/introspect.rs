//! The introspection model: the tree an object describes itself with,
//! the parser that reads it from the bus's XML description, and the
//! resolvers that look up a method's or property's signature in it.

use vstd::prelude::*;

use crate::error::Error;
use crate::numtext::clone_string;
use crate::signature::Signature;
use crate::signature::SigModel;
use crate::signature::sig_view;
use crate::signature::sigs_view;
use crate::signature::parse_single;
use crate::signature::sig_text;
use crate::value::DynValue;
use crate::value::DynModel;
use crate::value::dyn_view;
use crate::value::dyns_view;
use crate::value::fields_view;
use crate::value::lemma_fields_view_pointwise;

verus! {

broadcast use vstd::std_specs::vec::group_vec_axioms, vstd::seq::group_seq_axioms, vstd::string::group_string_axioms;

/// How a property may be accessed.
#[derive(Clone, Copy, Debug, PartialEq, Eq, Structural)]
pub enum Access {
    /// Read-only.
    Read,
    /// Write-only.
    Write,
    /// Readable and writable.
    ReadWrite,
}

/// One argument of a method or signal: an optional name and its type.
#[derive(Debug, PartialEq, Eq)]
pub struct MethodArg {
    pub name: Option<String>,
    pub sig: Signature,
}

/// One method: its input and output arguments, in declared order.
#[derive(Debug, PartialEq, Eq)]
pub struct Method {
    pub name: String,
    pub in_args: Vec<MethodArg>,
    pub out_args: Vec<MethodArg>,
}

/// One signal and its arguments.
#[derive(Debug, PartialEq, Eq)]
pub struct Signal {
    pub name: String,
    pub args: Vec<MethodArg>,
}

/// One property: its type and its access.
#[derive(Debug, PartialEq, Eq)]
pub struct Property {
    pub name: String,
    pub sig: Signature,
    pub access: Access,
}

/// One interface: its methods, signals and properties, keyed by name.
#[derive(Debug, PartialEq, Eq)]
pub struct Interface {
    pub name: String,
    pub methods: Vec<Method>,
    pub signals: Vec<Signal>,
    pub properties: Vec<Property>,
}

/// The description of one object: its child node names and interfaces.
#[derive(Debug, PartialEq, Eq)]
pub struct Node {
    pub children: Vec<String>,
    pub interfaces: Vec<Interface>,
}

/// The type models of a method's arguments, in order.
pub open spec fn arg_sigs(args: Seq<MethodArg>) -> Seq<SigModel>
    decreases args,
{
    if args.len() == 0 {
        Seq::empty()
    } else {
        seq![sig_view(args[0].sig)] + arg_sigs(args.drop_first())
    }
}

/// The input signatures of the named method in the named interface:
/// the first interface of that exact name is consulted, and in it the
/// first method of that exact name; no other interface is tried.
pub open spec fn lookup_method(
    ifaces: Seq<Interface>,
    iface: Seq<char>,
    method: Seq<char>,
) -> Option<Seq<SigModel>>
    decreases ifaces,
{
    if ifaces.len() == 0 {
        None
    } else if ifaces[0].name@ == iface {
        lookup_method_in(ifaces[0].methods@, method)
    } else {
        lookup_method(ifaces.drop_first(), iface, method)
    }
}

pub open spec fn lookup_method_in(ms: Seq<Method>, method: Seq<char>) -> Option<
    Seq<SigModel>,
>
    decreases ms,
{
    if ms.len() == 0 {
        None
    } else if ms[0].name@ == method {
        Some(arg_sigs(ms[0].in_args@))
    } else {
        lookup_method_in(ms.drop_first(), method)
    }
}

/// The type and access of the named property in the named interface.
pub open spec fn lookup_property(
    ifaces: Seq<Interface>,
    iface: Seq<char>,
    prop: Seq<char>,
) -> Option<(SigModel, Access)>
    decreases ifaces,
{
    if ifaces.len() == 0 {
        None
    } else if ifaces[0].name@ == iface {
        lookup_property_in(ifaces[0].properties@, prop)
    } else {
        lookup_property(ifaces.drop_first(), iface, prop)
    }
}

pub open spec fn lookup_property_in(ps: Seq<Property>, prop: Seq<char>) -> Option<
    (SigModel, Access),
>
    decreases ps,
{
    if ps.len() == 0 {
        None
    } else if ps[0].name@ == prop {
        Some((sig_view(ps[0].sig), ps[0].access))
    } else {
        lookup_property_in(ps.drop_first(), prop)
    }
}

/// Character equality of two string slices.
pub fn str_eq(a: &str, b: &str) -> (r: bool)
    ensures
        r == (a@ == b@),
{
    let n = a.unicode_len();
    if n != b.unicode_len() {
        return false;
    }
    let mut i: usize = 0;
    while i < n
        invariant
            i <= n,
            n == a@.len() == b@.len(),
            forall|k: int| 0 <= k < i ==> a@[k] == b@[k],
        decreases n - i,
    {
        if a.get_char(i) != b.get_char(i) {
            return false;
        }
        i = i + 1;
    }
    proof {
        assert(a@ =~= b@);
    }
    true
}

impl Node {
    /// Resolves the input signatures for a method call: the named
    /// interface is looked up by exact name, then the method in it, and
    /// the method's input signatures are returned in declared order.
    /// `NotFound` exactly when either name is absent — never a silent
    /// empty signature.
    #[verifier::loop_isolation(false)]
    pub fn resolve_method_signature(&self, interface: &str, method: &str) -> (r: Result<
        Vec<Signature>,
        Error,
    >)
        ensures
            match r {
                Ok(sigs) => lookup_method(self.interfaces@, interface@, method@)
                    == Some(sigs_view(sigs@)),
                Err(e) => lookup_method(self.interfaces@, interface@, method@) is None
                    && e == Error::NotFound,
            },
    {
        let ghost ifs = self.interfaces@;
        proof {
            assert(ifs.skip(0) =~= ifs);
        }
        let mut i: usize = 0;
        while i < self.interfaces.len()
            invariant
                i <= ifs.len(),
                lookup_method(ifs, interface@, method@)
                    == lookup_method(ifs.skip(i as int), interface@, method@),
            decreases ifs.len() - i,
        {
            proof {
                assert(ifs.skip(i as int)[0] == ifs[i as int]);
                assert(ifs.skip(i as int).drop_first() =~= ifs.skip(i + 1));
            }
            let iface = &self.interfaces[i];
            if str_eq(iface.name.as_str(), interface) {
                return Self::find_method(&iface.methods, method);
            }
            i = i + 1;
        }
        proof {
            assert(ifs.skip(ifs.len() as int) =~= Seq::<Interface>::empty());
        }
        Err(Error::NotFound)
    }

    /// The first method of the given name, as its input signatures.
    #[verifier::loop_isolation(false)]
    fn find_method(ms: &Vec<Method>, method: &str) -> (r: Result<Vec<Signature>, Error>)
        ensures
            match r {
                Ok(sigs) => lookup_method_in(ms@, method@) == Some(sigs_view(sigs@)),
                Err(e) => lookup_method_in(ms@, method@) is None
                    && e == Error::NotFound,
            },
    {
        proof {
            assert(ms@.skip(0) =~= ms@);
        }
        let mut i: usize = 0;
        while i < ms.len()
            invariant
                i <= ms@.len(),
                lookup_method_in(ms@, method@)
                    == lookup_method_in(ms@.skip(i as int), method@),
            decreases ms@.len() - i,
        {
            proof {
                assert(ms@.skip(i as int)[0] == ms@[i as int]);
                assert(ms@.skip(i as int).drop_first() =~= ms@.skip(i + 1));
            }
            if str_eq(ms[i].name.as_str(), method) {
                let mut sigs: Vec<Signature> = Vec::new();
                let args = &ms[i].in_args;
                let ghost am = args@;
                let mut j: usize = 0;
                while j < args.len()
                    invariant
                        j <= am.len(),
                        am == ms@[i as int].in_args@,
                        sigs_view(sigs@) =~= arg_sigs(am.take(j as int)),
                    decreases am.len() - j,
                {
                    let ghost prev = sigs@;
                    let s = args[j].sig.clone();
                    let ghost gs = s;
                    sigs.push(s);
                    proof {
                        crate::signature::lemma_sigs_view_push(prev, gs);
                        lemma_arg_sigs_take(am, j as int);
                    }
                    j = j + 1;
                }
                proof {
                    assert(am.take(am.len() as int) =~= am);
                }
                return Ok(sigs);
            }
            i = i + 1;
        }
        proof {
            assert(ms@.skip(ms@.len() as int) =~= Seq::<Method>::empty());
        }
        Err(Error::NotFound)
    }

    /// Resolves a property's type and access, by exact names.
    #[verifier::loop_isolation(false)]
    pub fn resolve_property_signature(&self, interface: &str, property: &str) -> (r:
        Result<(Signature, Access), Error>)
        ensures
            match r {
                Ok((sig, access)) => lookup_property(self.interfaces@, interface@,
                    property@) == Some((sig@, access)),
                Err(e) => lookup_property(self.interfaces@, interface@, property@)
                    is None && e == Error::NotFound,
            },
    {
        let ghost ifs = self.interfaces@;
        proof {
            assert(ifs.skip(0) =~= ifs);
        }
        let mut i: usize = 0;
        while i < self.interfaces.len()
            invariant
                i <= ifs.len(),
                lookup_property(ifs, interface@, property@)
                    == lookup_property(ifs.skip(i as int), interface@, property@),
            decreases ifs.len() - i,
        {
            proof {
                assert(ifs.skip(i as int)[0] == ifs[i as int]);
                assert(ifs.skip(i as int).drop_first() =~= ifs.skip(i + 1));
            }
            let iface = &self.interfaces[i];
            if str_eq(iface.name.as_str(), interface) {
                return Self::find_property(&iface.properties, property);
            }
            i = i + 1;
        }
        proof {
            assert(ifs.skip(ifs.len() as int) =~= Seq::<Interface>::empty());
        }
        Err(Error::NotFound)
    }

    /// The first property of the given name.
    #[verifier::loop_isolation(false)]
    fn find_property(ps: &Vec<Property>, property: &str) -> (r: Result<
        (Signature, Access),
        Error,
    >)
        ensures
            match r {
                Ok((sig, access)) => lookup_property_in(ps@, property@)
                    == Some((sig@, access)),
                Err(e) => lookup_property_in(ps@, property@) is None
                    && e == Error::NotFound,
            },
    {
        proof {
            assert(ps@.skip(0) =~= ps@);
        }
        let mut i: usize = 0;
        while i < ps.len()
            invariant
                i <= ps@.len(),
                lookup_property_in(ps@, property@)
                    == lookup_property_in(ps@.skip(i as int), property@),
            decreases ps@.len() - i,
        {
            proof {
                assert(ps@.skip(i as int)[0] == ps@[i as int]);
                assert(ps@.skip(i as int).drop_first() =~= ps@.skip(i + 1));
            }
            if str_eq(ps[i].name.as_str(), property) {
                let sig = ps[i].sig.clone();
                let access = ps[i].access;
                return Ok((sig, access));
            }
            i = i + 1;
        }
        proof {
            assert(ps@.skip(ps@.len() as int) =~= Seq::<Property>::empty());
        }
        Err(Error::NotFound)
    }
}

/// One raw XML element: name, attributes, child elements.  Text content
/// is not kept; the introspection schema carries everything in
/// attributes.
pub struct XmlElem {
    pub name: String,
    pub attrs: Vec<(String, String)>,
    pub children: Vec<XmlElem>,
}

/// The model of a raw XML element.
#[verifier::ext_equal]
pub struct XmlModel {
    pub name: Seq<char>,
    pub attrs: Seq<(Seq<char>, Seq<char>)>,
    pub children: Seq<XmlModel>,
}

/// The models of an attribute list, elementwise.
pub open spec fn sattrs_view(s: Seq<(String, String)>) -> Seq<(Seq<char>, Seq<char>)>
    decreases s,
{
    if s.len() == 0 {
        Seq::empty()
    } else {
        seq![(s[0].0@, s[0].1@)] + sattrs_view(s.drop_first())
    }
}

/// The models of a sequence of raw elements, elementwise.
pub open spec fn xmls_view(s: Seq<XmlElem>) -> Seq<XmlModel>
    decreases s,
{
    if s.len() == 0 {
        Seq::empty()
    } else {
        seq![xml_view(s[0])] + xmls_view(s.drop_first())
    }
}

pub open spec fn xml_view(e: XmlElem) -> XmlModel
    decreases e,
{
    XmlModel {
        name: e.name@,
        attrs: sattrs_view(e.attrs@),
        children: xmls_view(e.children@),
    }
}

pub proof fn lemma_sattrs_view_pointwise(s: Seq<(String, String)>)
    ensures
        sattrs_view(s).len() == s.len(),
        forall|i: int| 0 <= i < s.len()
            ==> sattrs_view(s)[i] == ((#[trigger] s[i]).0@, s[i].1@),
    decreases s.len(),
{
    if s.len() > 0 {
        lemma_sattrs_view_pointwise(s.drop_first());
        assert forall|i: int| 0 <= i < s.len()
            implies sattrs_view(s)[i] == ((#[trigger] s[i]).0@, s[i].1@) by {
            if i > 0 {
                assert(s.drop_first()[i - 1] == s[i]);
                assert(sattrs_view(s.drop_first())[i - 1]
                    == (s.drop_first()[i - 1].0@, s.drop_first()[i - 1].1@));
            }
        }
    }
}

pub proof fn lemma_xmls_view_pointwise(s: Seq<XmlElem>)
    ensures
        xmls_view(s).len() == s.len(),
        forall|i: int| 0 <= i < s.len()
            ==> xmls_view(s)[i] == xml_view(#[trigger] s[i]),
    decreases s.len(),
{
    if s.len() > 0 {
        lemma_xmls_view_pointwise(s.drop_first());
        assert forall|i: int| 0 <= i < s.len()
            implies xmls_view(s)[i] == xml_view(#[trigger] s[i]) by {
            if i > 0 {
                assert(s.drop_first()[i - 1] == s[i]);
                assert(xmls_view(s.drop_first())[i - 1]
                    == xml_view(s.drop_first()[i - 1]));
            }
        }
    }
}

pub open spec fn sp_space(c: char) -> bool {
    c == ' ' || c == '\t' || c == '\n' || c == '\r'
}

pub open spec fn sp_namechar(c: char) -> bool {
    !(sp_space(c) || c == '<' || c == '>' || c == '/' || c == '=' || c == '"'
        || c == '\'' || c == '?' || c == '!')
}

/// The first position at or after `i` holding a non-space character;
/// the length if none.
pub open spec fn ws_end(t: Seq<char>, i: int) -> int
    decreases t.len() - i,
{
    if i < 0 || i >= t.len() {
        i
    } else if sp_space(t[i]) {
        ws_end(t, i + 1)
    } else {
        i
    }
}

/// The end of the run of name characters starting at `i`.
pub open spec fn name_end(t: Seq<char>, i: int) -> int
    decreases t.len() - i,
{
    if i < 0 || i >= t.len() {
        i
    } else if sp_namechar(t[i]) {
        name_end(t, i + 1)
    } else {
        i
    }
}

/// The first position at or after `i` holding `<`; the length if none.
pub open spec fn lt_end(t: Seq<char>, i: int) -> int
    decreases t.len() - i,
{
    if i < 0 || i >= t.len() {
        i
    } else if t[i] == '<' {
        i
    } else {
        lt_end(t, i + 1)
    }
}

/// The first position at or after `i` holding the quote `q`.
pub open spec fn quote_end(t: Seq<char>, i: int, q: char) -> int
    decreases t.len() - i,
{
    if i < 0 || i >= t.len() {
        i
    } else if t[i] == q {
        i
    } else {
        quote_end(t, i + 1, q)
    }
}

/// The first position at or after `i` holding `>`; the length if none.
pub open spec fn gt_end(t: Seq<char>, i: int) -> int
    decreases t.len() - i,
{
    if i < 0 || i >= t.len() {
        i
    } else if t[i] == '>' {
        i
    } else {
        gt_end(t, i + 1)
    }
}

/// Whether the comment terminator stands at position `i`.
pub open spec fn comment_mark(t: Seq<char>, i: int) -> bool {
    i + 3 <= t.len() && t[i] == '-' && t[i + 1] == '-' && t[i + 2] == '>'
}

/// The first position at or after `i` where a comment terminator
/// stands; the length if none fits.
pub open spec fn comment_close(t: Seq<char>, i: int) -> int
    decreases t.len() - i,
{
    if i < 0 || i + 3 > t.len() {
        t.len() as int
    } else if comment_mark(t, i) {
        i
    } else {
        comment_close(t, i + 1)
    }
}

/// What reading an open tag's attribute list from `i` yields: the
/// attributes, the position past the closing `>`, and whether the tag
/// closed itself; `None` where the tag is broken or unclosed.
pub open spec fn sp_attrs(t: Seq<char>, i: int) -> Option<
    (Seq<(Seq<char>, Seq<char>)>, int, bool),
>
    decreases t.len() - i,
{
    if i < 0 || i > t.len() {
        None
    } else {
        let j = ws_end(t, i);
        if j < i || j > t.len() {
            None
        } else if j >= t.len() {
            None
        } else if t[j] == '>' {
            Some((Seq::empty(), j + 1, false))
        } else if t[j] == '/' {
            if j + 1 < t.len() && t[j + 1] == '>' {
                Some((Seq::empty(), j + 2, true))
            } else {
                None
            }
        } else {
            let k = name_end(t, j);
            if k <= j || k > t.len() {
                None
            } else {
                let aname = t.subrange(j, k);
                let m = ws_end(t, k);
                if m < k || m >= t.len() {
                    None
                } else if t[m] != '=' {
                    None
                } else {
                    let m2 = ws_end(t, m + 1);
                    if m2 < m + 1 || m2 >= t.len() {
                        None
                    } else {
                        let q = t[m2];
                        if q != '"' && q != '\'' {
                            None
                        } else {
                            let ve = quote_end(t, m2 + 1, q);
                            if ve < m2 + 1 || ve >= t.len() {
                                None
                            } else {
                                let value = t.subrange(m2 + 1, ve);
                                match sp_attrs(t, ve + 1) {
                                    None => None,
                                    Some((rest, end, sc)) => Some((
                                        seq![(aname, value)] + rest,
                                        end,
                                        sc,
                                    )),
                                }
                            }
                        }
                    }
                }
            }
        }
    }
}

/// What skipping a comment, processing instruction or declaration at
/// `i` yields: the position past it.
pub open spec fn sp_skip_misc(t: Seq<char>, i: int) -> Option<int> {
    if i < 0 || i >= t.len() {
        None
    } else if t.len() - i > 3 && t[i + 1] == '!' && t[i + 2] == '-'
        && t[i + 3] == '-' {
        let p = comment_close(t, i + 4);
        if p >= i + 4 && p + 3 <= t.len() {
            Some(p + 3)
        } else {
            None
        }
    } else {
        let p = gt_end(t, i + 1);
        if p >= i + 1 && p < t.len() {
            Some(p + 1)
        } else {
            None
        }
    }
}

/// What parsing one element whose `<` stands at `i` yields: the element
/// with all its children, and the position past its closing tag.
pub open spec fn sp_xml_element(t: Seq<char>, i: int) -> Option<(XmlModel, int)>
    decreases t.len() - i, 0int,
{
    if i < 0 || i >= t.len() {
        None
    } else if t[i] != '<' {
        None
    } else {
        let k = name_end(t, i + 1);
        if k <= i + 1 || k > t.len() {
            None
        } else {
            let name = t.subrange(i + 1, k);
            match sp_attrs(t, k) {
                None => None,
                Some((attrs, ao, selfc)) => {
                    if selfc {
                        Some((XmlModel { name, attrs, children: Seq::empty() }, ao))
                    } else if i < ao && ao <= t.len() {
                        match sp_xml_children(t, ao, name) {
                            None => None,
                            Some((cs, end)) => Some((
                                XmlModel { name, attrs, children: cs },
                                end,
                            )),
                        }
                    } else {
                        None
                    }
                },
            }
        }
    }
}

/// What parsing an element's content from `i` yields: the child
/// elements up to and past the closing tag carrying `name`.  Text runs
/// are skipped; comments and declarations are passed over.
pub open spec fn sp_xml_children(t: Seq<char>, i: int, name: Seq<char>) -> Option<
    (Seq<XmlModel>, int),
>
    decreases t.len() - i, 1int,
{
    if i < 0 || i > t.len() {
        None
    } else {
        let p = lt_end(t, i);
        if p < i || p >= t.len() {
            None
        } else if p + 1 < t.len() && t[p + 1] == '/' {
            let k = name_end(t, p + 2);
            if k < p + 2 || k > t.len() {
                None
            } else if t.subrange(p + 2, k) != name {
                None
            } else {
                let m2 = ws_end(t, k);
                if m2 < k || m2 >= t.len() {
                    None
                } else if t[m2] != '>' {
                    None
                } else {
                    Some((Seq::empty(), m2 + 1))
                }
            }
        } else if p + 1 < t.len() && (t[p + 1] == '!' || t[p + 1] == '?') {
            match sp_skip_misc(t, p) {
                None => None,
                Some(m) => {
                    if p < m && m <= t.len() {
                        sp_xml_children(t, m, name)
                    } else {
                        None
                    }
                },
            }
        } else {
            match sp_xml_element(t, p) {
                None => None,
                Some((c, j2)) => {
                    if p < j2 && j2 <= t.len() {
                        match sp_xml_children(t, j2, name) {
                            None => None,
                            Some((cs, end)) => Some((seq![c] + cs, end)),
                        }
                    } else {
                        None
                    }
                },
            }
        }
    }
}

/// What skipping the document prolog from `i` yields: the position of
/// the root element's `<`.
pub open spec fn sp_prolog(t: Seq<char>, i: int) -> Option<int>
    decreases t.len() - i,
{
    if i < 0 || i > t.len() {
        None
    } else {
        let j = ws_end(t, i);
        if j < i || j >= t.len() {
            None
        } else if t[j] != '<' {
            None
        } else if j + 1 < t.len() && (t[j + 1] == '!' || t[j + 1] == '?') {
            match sp_skip_misc(t, j) {
                None => None,
                Some(m) => {
                    if j < m && m <= t.len() {
                        sp_prolog(t, m)
                    } else {
                        None
                    }
                },
            }
        } else {
            Some(j)
        }
    }
}

fn is_space(c: char) -> (r: bool)
    ensures
        r == sp_space(c),
{
    c == ' ' || c == '\t' || c == '\n' || c == '\r'
}

fn is_name_char(c: char) -> (r: bool)
    ensures
        r == sp_namechar(c),
{
    !(c == ' ' || c == '\t' || c == '\n' || c == '\r' || c == '<' || c == '>'
        || c == '/' || c == '=' || c == '"' || c == '\'' || c == '?' || c == '!')
}

/// Characterizes `ws_end` by the scanned run.
proof fn lemma_ws_end_char(t: Seq<char>, i: int, j: int)
    requires
        0 <= i <= j <= t.len(),
        forall|k: int| i <= k < j ==> sp_space(#[trigger] t[k]),
        j == t.len() || !sp_space(t[j]),
    ensures
        ws_end(t, i) == j,
    decreases j - i,
{
    if i < j {
        lemma_ws_end_char(t, i + 1, j);
    }
}

/// Characterizes `name_end` by the scanned run.
proof fn lemma_name_end_char(t: Seq<char>, i: int, j: int)
    requires
        0 <= i <= j <= t.len(),
        forall|k: int| i <= k < j ==> sp_namechar(#[trigger] t[k]),
        j == t.len() || !sp_namechar(t[j]),
    ensures
        name_end(t, i) == j,
    decreases j - i,
{
    if i < j {
        lemma_name_end_char(t, i + 1, j);
    }
}

/// Characterizes `lt_end` by the scanned run.
proof fn lemma_lt_end_char(t: Seq<char>, i: int, j: int)
    requires
        0 <= i <= j <= t.len(),
        forall|k: int| i <= k < j ==> (#[trigger] t[k]) != '<',
        j == t.len() || t[j] == '<',
    ensures
        lt_end(t, i) == j,
    decreases j - i,
{
    if i < j {
        lemma_lt_end_char(t, i + 1, j);
    }
}

/// Characterizes `quote_end` by the scanned run.
proof fn lemma_quote_end_char(t: Seq<char>, i: int, j: int, q: char)
    requires
        0 <= i <= j <= t.len(),
        forall|k: int| i <= k < j ==> (#[trigger] t[k]) != q,
        j == t.len() || t[j] == q,
    ensures
        quote_end(t, i, q) == j,
    decreases j - i,
{
    if i < j {
        lemma_quote_end_char(t, i + 1, j, q);
    }
}

/// Characterizes `gt_end` by the scanned run.
proof fn lemma_gt_end_char(t: Seq<char>, i: int, j: int)
    requires
        0 <= i <= j <= t.len(),
        forall|k: int| i <= k < j ==> (#[trigger] t[k]) != '>',
        j == t.len() || t[j] == '>',
    ensures
        gt_end(t, i) == j,
    decreases j - i,
{
    if i < j {
        lemma_gt_end_char(t, i + 1, j);
    }
}

/// The model of one argument.
#[verifier::ext_equal]
pub struct ArgModel {
    pub name: Option<Seq<char>>,
    pub sig: SigModel,
}

/// The model of one method.
#[verifier::ext_equal]
pub struct MethodModel {
    pub name: Seq<char>,
    pub in_args: Seq<ArgModel>,
    pub out_args: Seq<ArgModel>,
}

/// The model of one signal.
#[verifier::ext_equal]
pub struct SignalModel {
    pub name: Seq<char>,
    pub args: Seq<ArgModel>,
}

/// The model of one property.
#[verifier::ext_equal]
pub struct PropModel {
    pub name: Seq<char>,
    pub sig: SigModel,
    pub access: Access,
}

/// The model of one interface.
#[verifier::ext_equal]
pub struct IfaceModel {
    pub name: Seq<char>,
    pub methods: Seq<MethodModel>,
    pub signals: Seq<SignalModel>,
    pub properties: Seq<PropModel>,
}

/// The model of a whole description.
#[verifier::ext_equal]
pub struct NodeModel {
    pub children: Seq<Seq<char>>,
    pub interfaces: Seq<IfaceModel>,
}

pub open spec fn arg_view(a: MethodArg) -> ArgModel {
    ArgModel {
        name: match a.name {
            Some(n) => Some(n@),
            None => None,
        },
        sig: sig_view(a.sig),
    }
}

pub open spec fn args_view(s: Seq<MethodArg>) -> Seq<ArgModel>
    decreases s,
{
    if s.len() == 0 {
        Seq::empty()
    } else {
        seq![arg_view(s[0])] + args_view(s.drop_first())
    }
}

pub open spec fn method_view(m: Method) -> MethodModel {
    MethodModel {
        name: m.name@,
        in_args: args_view(m.in_args@),
        out_args: args_view(m.out_args@),
    }
}

pub open spec fn methods_view(s: Seq<Method>) -> Seq<MethodModel>
    decreases s,
{
    if s.len() == 0 {
        Seq::empty()
    } else {
        seq![method_view(s[0])] + methods_view(s.drop_first())
    }
}

pub open spec fn signal_view(sg: Signal) -> SignalModel {
    SignalModel { name: sg.name@, args: args_view(sg.args@) }
}

pub open spec fn signals_view(s: Seq<Signal>) -> Seq<SignalModel>
    decreases s,
{
    if s.len() == 0 {
        Seq::empty()
    } else {
        seq![signal_view(s[0])] + signals_view(s.drop_first())
    }
}

pub open spec fn prop_view(p: Property) -> PropModel {
    PropModel { name: p.name@, sig: sig_view(p.sig), access: p.access }
}

pub open spec fn props_view(s: Seq<Property>) -> Seq<PropModel>
    decreases s,
{
    if s.len() == 0 {
        Seq::empty()
    } else {
        seq![prop_view(s[0])] + props_view(s.drop_first())
    }
}

pub open spec fn iface_view(i: Interface) -> IfaceModel {
    IfaceModel {
        name: i.name@,
        methods: methods_view(i.methods@),
        signals: signals_view(i.signals@),
        properties: props_view(i.properties@),
    }
}

pub open spec fn ifaces_view(s: Seq<Interface>) -> Seq<IfaceModel>
    decreases s,
{
    if s.len() == 0 {
        Seq::empty()
    } else {
        seq![iface_view(s[0])] + ifaces_view(s.drop_first())
    }
}

pub open spec fn names_view(s: Seq<String>) -> Seq<Seq<char>>
    decreases s,
{
    if s.len() == 0 {
        Seq::empty()
    } else {
        seq![s[0]@] + names_view(s.drop_first())
    }
}

pub open spec fn node_view(n: Node) -> NodeModel {
    NodeModel {
        children: names_view(n.children@),
        interfaces: ifaces_view(n.interfaces@),
    }
}

pub proof fn lemma_args_view_pointwise(s: Seq<MethodArg>)
    ensures
        args_view(s).len() == s.len(),
        forall|i: int| 0 <= i < s.len()
            ==> args_view(s)[i] == arg_view(#[trigger] s[i]),
    decreases s.len(),
{
    if s.len() > 0 {
        lemma_args_view_pointwise(s.drop_first());
        assert forall|i: int| 0 <= i < s.len()
            implies args_view(s)[i] == arg_view(#[trigger] s[i]) by {
            if i > 0 {
                assert(s.drop_first()[i - 1] == s[i]);
                assert(args_view(s.drop_first())[i - 1]
                    == arg_view(s.drop_first()[i - 1]));
            }
        }
    }
}

pub proof fn lemma_methods_view_pointwise(s: Seq<Method>)
    ensures
        methods_view(s).len() == s.len(),
        forall|i: int| 0 <= i < s.len()
            ==> methods_view(s)[i] == method_view(#[trigger] s[i]),
    decreases s.len(),
{
    if s.len() > 0 {
        lemma_methods_view_pointwise(s.drop_first());
        assert forall|i: int| 0 <= i < s.len()
            implies methods_view(s)[i] == method_view(#[trigger] s[i]) by {
            if i > 0 {
                assert(s.drop_first()[i - 1] == s[i]);
                assert(methods_view(s.drop_first())[i - 1]
                    == method_view(s.drop_first()[i - 1]));
            }
        }
    }
}

pub proof fn lemma_signals_view_pointwise(s: Seq<Signal>)
    ensures
        signals_view(s).len() == s.len(),
        forall|i: int| 0 <= i < s.len()
            ==> signals_view(s)[i] == signal_view(#[trigger] s[i]),
    decreases s.len(),
{
    if s.len() > 0 {
        lemma_signals_view_pointwise(s.drop_first());
        assert forall|i: int| 0 <= i < s.len()
            implies signals_view(s)[i] == signal_view(#[trigger] s[i]) by {
            if i > 0 {
                assert(s.drop_first()[i - 1] == s[i]);
                assert(signals_view(s.drop_first())[i - 1]
                    == signal_view(s.drop_first()[i - 1]));
            }
        }
    }
}

pub proof fn lemma_props_view_pointwise(s: Seq<Property>)
    ensures
        props_view(s).len() == s.len(),
        forall|i: int| 0 <= i < s.len()
            ==> props_view(s)[i] == prop_view(#[trigger] s[i]),
    decreases s.len(),
{
    if s.len() > 0 {
        lemma_props_view_pointwise(s.drop_first());
        assert forall|i: int| 0 <= i < s.len()
            implies props_view(s)[i] == prop_view(#[trigger] s[i]) by {
            if i > 0 {
                assert(s.drop_first()[i - 1] == s[i]);
                assert(props_view(s.drop_first())[i - 1]
                    == prop_view(s.drop_first()[i - 1]));
            }
        }
    }
}

pub proof fn lemma_ifaces_view_pointwise(s: Seq<Interface>)
    ensures
        ifaces_view(s).len() == s.len(),
        forall|i: int| 0 <= i < s.len()
            ==> ifaces_view(s)[i] == iface_view(#[trigger] s[i]),
    decreases s.len(),
{
    if s.len() > 0 {
        lemma_ifaces_view_pointwise(s.drop_first());
        assert forall|i: int| 0 <= i < s.len()
            implies ifaces_view(s)[i] == iface_view(#[trigger] s[i]) by {
            if i > 0 {
                assert(s.drop_first()[i - 1] == s[i]);
                assert(ifaces_view(s.drop_first())[i - 1]
                    == iface_view(s.drop_first()[i - 1]));
            }
        }
    }
}

pub proof fn lemma_names_view_pointwise(s: Seq<String>)
    ensures
        names_view(s).len() == s.len(),
        forall|i: int| 0 <= i < s.len()
            ==> names_view(s)[i] == (#[trigger] s[i])@,
    decreases s.len(),
{
    if s.len() > 0 {
        lemma_names_view_pointwise(s.drop_first());
        assert forall|i: int| 0 <= i < s.len()
            implies names_view(s)[i] == (#[trigger] s[i])@ by {
            if i > 0 {
                assert(s.drop_first()[i - 1] == s[i]);
                assert(names_view(s.drop_first())[i - 1]
                    == s.drop_first()[i - 1]@);
            }
        }
    }
}

pub proof fn lemma_sattrs_view_push(s: Seq<(String, String)>, x: (String, String))
    ensures
        sattrs_view(s.push(x)) =~= sattrs_view(s).push((x.0@, x.1@)),
{
    lemma_sattrs_view_pointwise(s.push(x));
    lemma_sattrs_view_pointwise(s);
    assert forall|i: int| 0 <= i < s.push(x).len()
        implies sattrs_view(s.push(x))[i] == sattrs_view(s).push((x.0@, x.1@))[i] by {
        if i < s.len() {
            assert(s.push(x)[i] == s[i]);
        } else {
            assert(s.push(x)[i] == x);
        }
    }
}

pub proof fn lemma_xmls_view_push(s: Seq<XmlElem>, x: XmlElem)
    ensures
        xmls_view(s.push(x)) =~= xmls_view(s).push(xml_view(x)),
{
    lemma_xmls_view_pointwise(s.push(x));
    lemma_xmls_view_pointwise(s);
    assert forall|i: int| 0 <= i < s.push(x).len()
        implies xmls_view(s.push(x))[i] == xmls_view(s).push(xml_view(x))[i] by {
        if i < s.len() {
            assert(s.push(x)[i] == s[i]);
        } else {
            assert(s.push(x)[i] == x);
        }
    }
}

pub proof fn lemma_args_view_push(s: Seq<MethodArg>, x: MethodArg)
    ensures
        args_view(s.push(x)) =~= args_view(s).push(arg_view(x)),
{
    lemma_args_view_pointwise(s.push(x));
    lemma_args_view_pointwise(s);
    assert forall|i: int| 0 <= i < s.push(x).len()
        implies args_view(s.push(x))[i] == args_view(s).push(arg_view(x))[i] by {
        if i < s.len() {
            assert(s.push(x)[i] == s[i]);
        } else {
            assert(s.push(x)[i] == x);
        }
    }
}

pub proof fn lemma_methods_view_push(s: Seq<Method>, x: Method)
    ensures
        methods_view(s.push(x)) =~= methods_view(s).push(method_view(x)),
{
    lemma_methods_view_pointwise(s.push(x));
    lemma_methods_view_pointwise(s);
    assert forall|i: int| 0 <= i < s.push(x).len()
        implies methods_view(s.push(x))[i] == methods_view(s).push(method_view(x))[i] by {
        if i < s.len() {
            assert(s.push(x)[i] == s[i]);
        } else {
            assert(s.push(x)[i] == x);
        }
    }
}

pub proof fn lemma_signals_view_push(s: Seq<Signal>, x: Signal)
    ensures
        signals_view(s.push(x)) =~= signals_view(s).push(signal_view(x)),
{
    lemma_signals_view_pointwise(s.push(x));
    lemma_signals_view_pointwise(s);
    assert forall|i: int| 0 <= i < s.push(x).len()
        implies signals_view(s.push(x))[i] == signals_view(s).push(signal_view(x))[i] by {
        if i < s.len() {
            assert(s.push(x)[i] == s[i]);
        } else {
            assert(s.push(x)[i] == x);
        }
    }
}

pub proof fn lemma_props_view_push(s: Seq<Property>, x: Property)
    ensures
        props_view(s.push(x)) =~= props_view(s).push(prop_view(x)),
{
    lemma_props_view_pointwise(s.push(x));
    lemma_props_view_pointwise(s);
    assert forall|i: int| 0 <= i < s.push(x).len()
        implies props_view(s.push(x))[i] == props_view(s).push(prop_view(x))[i] by {
        if i < s.len() {
            assert(s.push(x)[i] == s[i]);
        } else {
            assert(s.push(x)[i] == x);
        }
    }
}

pub proof fn lemma_ifaces_view_push(s: Seq<Interface>, x: Interface)
    ensures
        ifaces_view(s.push(x)) =~= ifaces_view(s).push(iface_view(x)),
{
    lemma_ifaces_view_pointwise(s.push(x));
    lemma_ifaces_view_pointwise(s);
    assert forall|i: int| 0 <= i < s.push(x).len()
        implies ifaces_view(s.push(x))[i] == ifaces_view(s).push(iface_view(x))[i] by {
        if i < s.len() {
            assert(s.push(x)[i] == s[i]);
        } else {
            assert(s.push(x)[i] == x);
        }
    }
}

pub proof fn lemma_names_view_push(s: Seq<String>, x: String)
    ensures
        names_view(s.push(x)) =~= names_view(s).push(x@),
{
    lemma_names_view_pointwise(s.push(x));
    lemma_names_view_pointwise(s);
    assert forall|i: int| 0 <= i < s.push(x).len()
        implies names_view(s.push(x))[i] == names_view(s).push(x@)[i] by {
        if i < s.len() {
            assert(s.push(x)[i] == s[i]);
        } else {
            assert(s.push(x)[i] == x);
        }
    }
}

/// The value of the first attribute of the given name.
pub open spec fn sp_get_attr(attrs: Seq<(Seq<char>, Seq<char>)>, name: Seq<char>) -> Option<
    Seq<char>,
>
    decreases attrs,
{
    if attrs.len() == 0 {
        None
    } else if attrs[0].0 == name {
        Some(attrs[0].1)
    } else {
        sp_get_attr(attrs.drop_first(), name)
    }
}

/// The signature a type attribute denotes: exactly one complete
/// signature covering the text.
pub open spec fn sp_type_of(ty: Seq<char>) -> Option<SigModel> {
    match crate::signature::sp_parse_one(ty, 0) {
        Some((s, j)) => if j == ty.len() {
            Some(s)
        } else {
            None
        },
        None => None,
    }
}

/// The access an access attribute denotes.
pub open spec fn sp_access(d: Seq<char>) -> Option<Access> {
    if d == "read"@ {
        Some(Access::Read)
    } else if d == "write"@ {
        Some(Access::Write)
    } else if d == "readwrite"@ {
        Some(Access::ReadWrite)
    } else {
        None
    }
}

/// What an element contributes as an argument: its direction and the
/// argument, or nothing where it is no readable argument.
pub open spec fn sp_arg_entry(c: XmlModel) -> Option<(bool, ArgModel)> {
    if c.name == "arg"@ {
        match sp_get_attr(c.attrs, "type"@) {
            None => None,
            Some(ty) => match sp_type_of(ty) {
                None => None,
                Some(sig) => Some((
                    match sp_get_attr(c.attrs, "direction"@) {
                        Some(d) => d == "out"@,
                        None => false,
                    },
                    ArgModel { name: sp_get_attr(c.attrs, "name"@), sig },
                )),
            },
        }
    } else {
        None
    }
}

/// The input arguments among an element's children, in order.
pub open spec fn sp_in_args(cs: Seq<XmlModel>) -> Seq<ArgModel>
    decreases cs,
{
    if cs.len() == 0 {
        Seq::empty()
    } else {
        let head = sp_in_args(cs.drop_last());
        match sp_arg_entry(cs.last()) {
            Some((out, a)) => if !out {
                head.push(a)
            } else {
                head
            },
            None => head,
        }
    }
}

/// The output arguments among an element's children, in order.
pub open spec fn sp_out_args(cs: Seq<XmlModel>) -> Seq<ArgModel>
    decreases cs,
{
    if cs.len() == 0 {
        Seq::empty()
    } else {
        let head = sp_out_args(cs.drop_last());
        match sp_arg_entry(cs.last()) {
            Some((out, a)) => if out {
                head.push(a)
            } else {
                head
            },
            None => head,
        }
    }
}

/// The methods among an interface's children: a method element without
/// a name is dropped alone.
pub open spec fn sp_methods(cs: Seq<XmlModel>) -> Seq<MethodModel>
    decreases cs,
{
    if cs.len() == 0 {
        Seq::empty()
    } else {
        let head = sp_methods(cs.drop_last());
        let c = cs.last();
        if c.name == "method"@ {
            match sp_get_attr(c.attrs, "name"@) {
                Some(nm) => head.push(MethodModel {
                    name: nm,
                    in_args: sp_in_args(c.children),
                    out_args: sp_out_args(c.children),
                }),
                None => head,
            }
        } else {
            head
        }
    }
}

/// The signals among an interface's children; a signal's arguments
/// default to outputs, which come first.
pub open spec fn sp_signals(cs: Seq<XmlModel>) -> Seq<SignalModel>
    decreases cs,
{
    if cs.len() == 0 {
        Seq::empty()
    } else {
        let head = sp_signals(cs.drop_last());
        let c = cs.last();
        if c.name == "signal"@ {
            match sp_get_attr(c.attrs, "name"@) {
                Some(nm) => head.push(SignalModel {
                    name: nm,
                    args: sp_out_args(c.children) + sp_in_args(c.children),
                }),
                None => head,
            }
        } else {
            head
        }
    }
}

/// The properties among an interface's children: one missing a name, a
/// readable type or a recognized access is dropped alone.
pub open spec fn sp_props(cs: Seq<XmlModel>) -> Seq<PropModel>
    decreases cs,
{
    if cs.len() == 0 {
        Seq::empty()
    } else {
        let head = sp_props(cs.drop_last());
        let c = cs.last();
        if c.name == "property"@ {
            match sp_get_attr(c.attrs, "name"@) {
                None => head,
                Some(nm) => match sp_get_attr(c.attrs, "type"@) {
                    None => head,
                    Some(ty) => match sp_type_of(ty) {
                        None => head,
                        Some(sig) => match sp_get_attr(c.attrs, "access"@) {
                            None => head,
                            Some(d) => match sp_access(d) {
                                None => head,
                                Some(access) => head.push(PropModel {
                                    name: nm,
                                    sig,
                                    access,
                                }),
                            },
                        },
                    },
                },
            }
        } else {
            head
        }
    }
}

/// The interface an interface element denotes.
pub open spec fn sp_iface_of(e: XmlModel, name: Seq<char>) -> IfaceModel {
    IfaceModel {
        name,
        methods: sp_methods(e.children),
        signals: sp_signals(e.children),
        properties: sp_props(e.children),
    }
}

/// The child node names among the root's children; one without a name
/// is dropped alone.
pub open spec fn sp_child_names(cs: Seq<XmlModel>) -> Seq<Seq<char>>
    decreases cs,
{
    if cs.len() == 0 {
        Seq::empty()
    } else {
        let head = sp_child_names(cs.drop_last());
        let c = cs.last();
        if c.name == "node"@ {
            match sp_get_attr(c.attrs, "name"@) {
                Some(nm) => head.push(nm),
                None => head,
            }
        } else {
            head
        }
    }
}

/// The interfaces among the root's children.
pub open spec fn sp_interfaces(cs: Seq<XmlModel>) -> Seq<IfaceModel>
    decreases cs,
{
    if cs.len() == 0 {
        Seq::empty()
    } else {
        let head = sp_interfaces(cs.drop_last());
        let c = cs.last();
        if c.name == "interface"@ {
            match sp_get_attr(c.attrs, "name"@) {
                Some(nm) => head.push(sp_iface_of(c, nm)),
                None => head,
            }
        } else {
            head
        }
    }
}

/// The tree a root node element denotes.  Only child node and interface
/// elements contribute; every other element is passed over.
pub open spec fn sp_node_of(root: XmlModel) -> NodeModel {
    NodeModel {
        children: sp_child_names(root.children),
        interfaces: sp_interfaces(root.children),
    }
}

/// What parsing a whole introspection document yields: the tree built
/// from the root node element, or nothing where the document itself is
/// broken — unreadable tags, a missing or mismatched closing tag, or a
/// root that is not a node element.
pub open spec fn sp_parse_introspection(t: Seq<char>) -> Option<NodeModel> {
    match sp_prolog(t, 0) {
        None => None,
        Some(p) => match sp_xml_element(t, p) {
            None => None,
            Some((root, _end)) => if root.name == "node"@ {
                Some(sp_node_of(root))
            } else {
                None
            },
        },
    }
}

/// Unknown elements among a root's children are skipped, never
/// reflected in the tree: inserting one anywhere leaves both the child
/// names and the interfaces unchanged.
pub proof fn lemma_unknown_child_ignored(cs: Seq<XmlModel>, k: int, c: XmlModel)
    requires
        0 <= k <= cs.len(),
        c.name != "node"@,
        c.name != "interface"@,
    ensures
        sp_child_names(cs.insert(k, c)) == sp_child_names(cs),
        sp_interfaces(cs.insert(k, c)) == sp_interfaces(cs),
    decreases cs.len() - k,
{
    let ins = cs.insert(k, c);
    if k == cs.len() {
        assert(ins.drop_last() =~= cs);
        assert(ins.last() == c);
    } else {
        assert(ins.drop_last() =~= cs.drop_last().insert(k, c));
        assert(ins.last() == cs.last());
        lemma_unknown_child_ignored(cs.drop_last(), k, c);
    }
}

/// Unknown members among an interface's children are skipped: inserting
/// one anywhere changes no method, signal or property.
pub proof fn lemma_unknown_member_ignored(cs: Seq<XmlModel>, k: int, c: XmlModel)
    requires
        0 <= k <= cs.len(),
        c.name != "method"@,
        c.name != "signal"@,
        c.name != "property"@,
    ensures
        sp_methods(cs.insert(k, c)) == sp_methods(cs),
        sp_signals(cs.insert(k, c)) == sp_signals(cs),
        sp_props(cs.insert(k, c)) == sp_props(cs),
    decreases cs.len() - k,
{
    let ins = cs.insert(k, c);
    if k == cs.len() {
        assert(ins.drop_last() =~= cs);
        assert(ins.last() == c);
    } else {
        assert(ins.drop_last() =~= cs.drop_last().insert(k, c));
        assert(ins.last() == cs.last());
        lemma_unknown_member_ignored(cs.drop_last(), k, c);
    }
}

/// Unknown elements among a member's children are skipped: inserting
/// one anywhere changes no argument.
pub proof fn lemma_unknown_arg_ignored(cs: Seq<XmlModel>, k: int, c: XmlModel)
    requires
        0 <= k <= cs.len(),
        c.name != "arg"@,
    ensures
        sp_in_args(cs.insert(k, c)) == sp_in_args(cs),
        sp_out_args(cs.insert(k, c)) == sp_out_args(cs),
    decreases cs.len() - k,
{
    let ins = cs.insert(k, c);
    if k == cs.len() {
        assert(ins.drop_last() =~= cs);
        assert(ins.last() == c);
        assert(sp_arg_entry(c) is None);
    } else {
        assert(ins.drop_last() =~= cs.drop_last().insert(k, c));
        assert(ins.last() == cs.last());
        lemma_unknown_arg_ignored(cs.drop_last(), k, c);
    }
}

/// The root-level statement: a root with an unrecognized element
/// inserted among its children denotes the very same tree.
pub proof fn lemma_node_unknown_child(root: XmlModel, k: int, c: XmlModel)
    requires
        0 <= k <= root.children.len(),
        c.name != "node"@,
        c.name != "interface"@,
    ensures
        sp_node_of(XmlModel {
            children: root.children.insert(k, c),
            ..root
        }) == sp_node_of(root),
{
    lemma_unknown_child_ignored(root.children, k, c);
    assert(sp_node_of(XmlModel { children: root.children.insert(k, c), ..root })
        =~= sp_node_of(root));
}

/// Characterizes `comment_close` by the scanned run.
proof fn lemma_comment_close_char(t: Seq<char>, i: int, j: int)
    requires
        0 <= i <= j <= t.len(),
        forall|k: int| i <= k < j ==> !comment_mark(t, k),
        j + 3 > t.len() || comment_mark(t, j),
    ensures
        comment_close(t, i) == (if j + 3 <= t.len() {
            j
        } else {
            t.len() as int
        }),
    decreases j - i,
{
    if i < j {
        if i + 3 > t.len() {
            assert(j + 3 > t.len());
        } else {
            lemma_comment_close_char(t, i + 1, j);
        }
    }
}

#[verifier::loop_isolation(false)]
fn skip_ws(s: &str, i: usize) -> (j: usize)
    requires
        i <= s@.len(),
    ensures
        i <= j <= s@.len(),
        j == ws_end(s@, i as int),
{
    let n = s.unicode_len();
    let mut j = i;
    while j < n && is_space(s.get_char(j))
        invariant
            i <= j <= n,
            forall|k: int| i <= k < j ==> sp_space(#[trigger] s@[k]),
        decreases n - j,
    {
        j = j + 1;
    }
    proof {
        lemma_ws_end_char(s@, i as int, j as int);
    }
    j
}

/// Reads a run of name characters; possibly empty.
#[verifier::loop_isolation(false)]
fn scan_name(s: &str, i: usize) -> (r: (String, usize))
    requires
        i <= s@.len(),
    ensures
        i <= r.1 <= s@.len(),
        r.1 == name_end(s@, i as int),
        r.0@ == s@.subrange(i as int, r.1 as int),
{
    let n = s.unicode_len();
    let mut out = String::new();
    let mut j = i;
    while j < n && is_name_char(s.get_char(j))
        invariant
            i <= j <= n,
            forall|k: int| i <= k < j ==> sp_namechar(#[trigger] s@[k]),
            out@ == s@.subrange(i as int, j as int),
        decreases n - j,
    {
        out.push(s.get_char(j));
        proof {
            assert(out@ =~= s@.subrange(i as int, j + 1));
        }
        j = j + 1;
    }
    proof {
        lemma_name_end_char(s@, i as int, j as int);
    }
    (out, j)
}

/// Reads the attribute list of an open tag, up to and past its closing
/// `>`; reports whether the tag closed itself.
#[verifier::loop_isolation(false)]
fn parse_attrs(s: &str, i: usize) -> (r: Result<(Vec<(String, String)>, usize, bool), Error>)
    requires
        i <= s@.len(),
    ensures
        match r {
            Ok(t) => sp_attrs(s@, i as int)
                == Some((sattrs_view(t.0@), t.1 as int, t.2)) && i < t.1 <= s@.len(),
            Err(e) => sp_attrs(s@, i as int) is None
                && e == Error::MalformedIntrospection,
        },
{
    let n = s.unicode_len();
    let mut attrs: Vec<(String, String)> = Vec::new();
    let mut j = i;
    proof {
        assert(sattrs_view(attrs@) =~= Seq::<(Seq<char>, Seq<char>)>::empty());
        if sp_attrs(s@, i as int) is Some {
            let tr = sp_attrs(s@, i as int)->Some_0;
            assert(sattrs_view(attrs@) + tr.0 =~= tr.0);
        }
    }
    loop
        invariant
            i <= j <= n,
            n == s@.len(),
            (match sp_attrs(s@, j as int) {
                Some((rest, e, sc)) => sp_attrs(s@, i as int)
                    == Some((sattrs_view(attrs@) + rest, e, sc)),
                None => sp_attrs(s@, i as int) is None,
            }),
        decreases n - j,
    {
        let ghost j0 = j as int;
        j = skip_ws(s, j);
        if j >= n {
            return Err(Error::MalformedIntrospection);
        }
        let c = s.get_char(j);
        if c == '>' {
            proof {
                assert(sp_attrs(s@, j0)
                    == Some((Seq::<(Seq<char>, Seq<char>)>::empty(), j + 1, false)));
                assert(sattrs_view(attrs@) + Seq::<(Seq<char>, Seq<char>)>::empty()
                    =~= sattrs_view(attrs@));
            }
            return Ok((attrs, j + 1, false));
        }
        if c == '/' {
            if j + 1 < n && s.get_char(j + 1) == '>' {
                proof {
                    assert(sp_attrs(s@, j0)
                        == Some((Seq::<(Seq<char>, Seq<char>)>::empty(), j + 2, true)));
                    assert(sattrs_view(attrs@) + Seq::<(Seq<char>, Seq<char>)>::empty()
                        =~= sattrs_view(attrs@));
                }
                return Ok((attrs, j + 2, true));
            }
            return Err(Error::MalformedIntrospection);
        }
        let (name, k) = scan_name(s, j);
        if k == j {
            return Err(Error::MalformedIntrospection);
        }
        let m1 = skip_ws(s, k);
        if m1 >= n || s.get_char(m1) != '=' {
            return Err(Error::MalformedIntrospection);
        }
        let m2 = skip_ws(s, m1 + 1);
        if m2 >= n {
            return Err(Error::MalformedIntrospection);
        }
        let q = s.get_char(m2);
        if q != '"' && q != '\'' {
            return Err(Error::MalformedIntrospection);
        }
        let ghost vstart = m2 + 1 as int;
        let mut m = m2 + 1;
        let mut value = String::new();
        while m < n && s.get_char(m) != q
            invariant
                vstart <= m <= n,
                value@ == s@.subrange(vstart, m as int),
                forall|kk: int| vstart <= kk < m ==> (#[trigger] s@[kk]) != q,
            decreases n - m,
        {
            value.push(s.get_char(m));
            proof {
                assert(value@ =~= s@.subrange(vstart, m + 1));
            }
            m = m + 1;
        }
        proof {
            lemma_quote_end_char(s@, vstart, m as int, q);
        }
        if m >= n {
            return Err(Error::MalformedIntrospection);
        }
        let ghost prev = attrs@;
        let ghost entry = (name, value);
        let ghost ganame = name@;
        let ghost gvalue = value@;
        attrs.push((name, value));
        proof {
            lemma_sattrs_view_push(prev, entry);
            if sp_attrs(s@, m + 1) is Some {
                let tr = sp_attrs(s@, m + 1)->Some_0;
                assert(sp_attrs(s@, j0)
                    == Some((seq![(ganame, gvalue)] + tr.0, tr.1, tr.2)));
                assert(sattrs_view(prev) + (seq![(ganame, gvalue)] + tr.0)
                    =~= sattrs_view(attrs@) + tr.0);
            } else {
                assert(sp_attrs(s@, j0) is None);
            }
        }
        j = m + 1;
    }
}

/// Skips a comment, processing instruction or declaration.
#[verifier::loop_isolation(false)]
fn skip_misc(s: &str, i: usize) -> (r: Result<usize, Error>)
    requires
        i < s@.len(),
    ensures
        match r {
            Ok(j) => sp_skip_misc(s@, i as int) == Some(j as int)
                && i < j <= s@.len(),
            Err(e) => sp_skip_misc(s@, i as int) is None
                && e == Error::MalformedIntrospection,
        },
{
    let n = s.unicode_len();
    if n - i > 3 && s.get_char(i + 1) == '!' && s.get_char(i + 2) == '-'
        && s.get_char(i + 3) == '-' {
        // a comment runs to the next `-->`
        let mut j = i + 4;
        while !(n - j >= 3 && s.get_char(j) == '-' && s.get_char(j + 1) == '-'
            && s.get_char(j + 2) == '>')
            invariant
                i + 4 <= j <= n,
                forall|k: int| i + 4 <= k < j ==> !comment_mark(s@, k),
            decreases n - j,
        {
            if n - j < 3 {
                proof {
                    lemma_comment_close_char(s@, i + 4, j as int);
                }
                return Err(Error::MalformedIntrospection);
            }
            j = j + 1;
        }
        proof {
            assert(comment_mark(s@, j as int));
            lemma_comment_close_char(s@, i + 4, j as int);
        }
        Ok(j + 3)
    } else {
        // a processing instruction or declaration runs to the next `>`
        let mut j = i + 1;
        while j < n && s.get_char(j) != '>'
            invariant
                i < j <= n,
                forall|k: int| i + 1 <= k < j ==> (#[trigger] s@[k]) != '>',
            decreases n - j,
        {
            j = j + 1;
        }
        proof {
            lemma_gt_end_char(s@, i + 1, j as int);
        }
        if j >= n {
            return Err(Error::MalformedIntrospection);
        }
        Ok(j + 1)
    }
}

/// Parses one element starting at the `<` at position `i`, including all
/// its children, up to and past its closing tag.
#[verifier::loop_isolation(false)]
fn parse_xml_element(s: &str, i: usize) -> (r: Result<(XmlElem, usize), Error>)
    requires
        i < s@.len(),
    ensures
        match r {
            Ok(t) => sp_xml_element(s@, i as int)
                == Some((xml_view(t.0), t.1 as int)) && i < t.1 <= s@.len(),
            Err(e) => sp_xml_element(s@, i as int) is None
                && e == Error::MalformedIntrospection,
        },
    decreases s@.len() - i,
{
    let n = s.unicode_len();
    if s.get_char(i) != '<' {
        return Err(Error::MalformedIntrospection);
    }
    let (name, k) = scan_name(s, i + 1);
    if k == i + 1 {
        return Err(Error::MalformedIntrospection);
    }
    let ghost nm = name@;
    let (attrs, after_open, self_closing) = match parse_attrs(s, k) {
        Ok(t) => t,
        Err(e) => {
            return Err(e);
        },
    };
    let ghost av = sattrs_view(attrs@);
    let mut children: Vec<XmlElem> = Vec::new();
    if self_closing {
        let elem = XmlElem { name, attrs, children };
        proof {
            assert(xmls_view(Seq::<XmlElem>::empty()) =~= Seq::<XmlModel>::empty());
            assert(xml_view(elem) =~= XmlModel {
                name: nm,
                attrs: av,
                children: Seq::empty(),
            });
        }
        return Ok((elem, after_open));
    }
    let ghost cs0 = after_open as int;
    proof {
        assert(xmls_view(children@) =~= Seq::<XmlModel>::empty());
        if sp_xml_children(s@, cs0, nm) is Some {
            let tr = sp_xml_children(s@, cs0, nm)->Some_0;
            assert(xmls_view(children@) + tr.0 =~= tr.0);
        }
    }
    let mut j = after_open;
    loop
        invariant
            i < j <= n,
            n == s@.len(),
            (match sp_xml_children(s@, j as int, nm) {
                Some((rest, end)) => sp_xml_children(s@, cs0, nm)
                    == Some((xmls_view(children@) + rest, end)),
                None => sp_xml_children(s@, cs0, nm) is None,
            }),
        decreases n - j,
    {
        let ghost j0 = j as int;
        // skip text content up to the next tag
        while j < n && s.get_char(j) != '<'
            invariant
                i < j <= n,
                j0 <= j,
                forall|k2: int| j0 <= k2 < j ==> (#[trigger] s@[k2]) != '<',
            decreases n - j,
        {
            j = j + 1;
        }
        proof {
            lemma_lt_end_char(s@, j0, j as int);
        }
        if j >= n {
            return Err(Error::MalformedIntrospection);
        }
        if j + 1 < n && s.get_char(j + 1) == '/' {
            // the closing tag must carry this element's name
            let (close, m) = scan_name(s, j + 2);
            if !str_eq(close.as_str(), name.as_str()) {
                return Err(Error::MalformedIntrospection);
            }
            let m2 = skip_ws(s, m);
            if m2 >= n || s.get_char(m2) != '>' {
                return Err(Error::MalformedIntrospection);
            }
            proof {
                assert(sp_xml_children(s@, j0, nm)
                    == Some((Seq::<XmlModel>::empty(), m2 + 1)));
                assert(xmls_view(children@) + Seq::<XmlModel>::empty()
                    =~= xmls_view(children@));
            }
            let ghost gcv = xmls_view(children@);
            let elem = XmlElem { name, attrs, children };
            proof {
                assert(xml_view(elem) =~= XmlModel { name: nm, attrs: av, children: gcv });
                assert(sp_xml_element(s@, i as int)
                    == Some((xml_view(elem), m2 + 1 as int)));
            }
            return Ok((elem, m2 + 1));
        }
        if j + 1 < n && (s.get_char(j + 1) == '!' || s.get_char(j + 1) == '?') {
            match skip_misc(s, j) {
                Ok(m) => {
                    proof {
                        assert(sp_xml_children(s@, j0, nm)
                            == sp_xml_children(s@, m as int, nm));
                    }
                    j = m;
                },
                Err(e) => {
                    return Err(e);
                },
            }
        } else {
            match parse_xml_element(s, j) {
                Ok((child, m)) => {
                    let ghost prev = children@;
                    let ghost gchild = child;
                    children.push(child);
                    proof {
                        lemma_xmls_view_push(prev, gchild);
                        if sp_xml_children(s@, m as int, nm) is Some {
                            let tr = sp_xml_children(s@, m as int, nm)->Some_0;
                            assert(sp_xml_children(s@, j0, nm)
                                == Some((seq![xml_view(gchild)] + tr.0, tr.1)));
                            assert(xmls_view(prev) + (seq![xml_view(gchild)] + tr.0)
                                =~= xmls_view(children@) + tr.0);
                        } else {
                            assert(sp_xml_children(s@, j0, nm) is None);
                        }
                    }
                    j = m;
                },
                Err(e) => {
                    return Err(e);
                },
            }
        }
    }
}

/// The value of the named attribute, if present: the first of that
/// exact name.
#[verifier::loop_isolation(false)]
fn get_attr(attrs: &Vec<(String, String)>, name: &str) -> (r: Option<String>)
    ensures
        match r {
            Some(v) => sp_get_attr(sattrs_view(attrs@), name@) == Some(v@),
            None => sp_get_attr(sattrs_view(attrs@), name@) is None,
        },
{
    let ghost av = sattrs_view(attrs@);
    proof {
        lemma_sattrs_view_pointwise(attrs@);
        assert(av.skip(0) =~= av);
    }
    let mut i: usize = 0;
    while i < attrs.len()
        invariant
            i <= attrs@.len(),
            sp_get_attr(av, name@) == sp_get_attr(av.skip(i as int), name@),
        decreases attrs@.len() - i,
    {
        proof {
            assert(av.skip(i as int)[0] == av[i as int]);
            assert(av.skip(i as int).drop_first() =~= av.skip(i + 1));
        }
        if str_eq(attrs[i].0.as_str(), name) {
            return Some(clone_string(&attrs[i].1));
        }
        i = i + 1;
    }
    proof {
        assert(av.skip(av.len() as int)
            =~= Seq::<(Seq<char>, Seq<char>)>::empty());
    }
    None
}

/// What one child element contributes as an argument: its direction and
/// the argument itself, or nothing where it is no readable argument.
fn arg_entry(child: &XmlElem) -> (r: Option<(bool, MethodArg)>)
    ensures
        match r {
            Some(p) => sp_arg_entry(xml_view(*child)) == Some((p.0, arg_view(p.1))),
            None => sp_arg_entry(xml_view(*child)) is None,
        },
{
    if !str_eq(child.name.as_str(), "arg") {
        return None;
    }
    let ty = match get_attr(&child.attrs, "type") {
        Some(t) => t,
        None => {
            return None;
        },
    };
    let sig = match parse_single(ty.as_str()) {
        Ok(sg) => sg,
        Err(_) => {
            return None;
        },
    };
    let nm = get_attr(&child.attrs, "name");
    let out = match get_attr(&child.attrs, "direction") {
        Some(d) => str_eq(d.as_str(), "out"),
        None => false,
    };
    Some((out, MethodArg { name: nm, sig }))
}

/// Reads the arguments of a method or signal element, appending each to
/// the inputs or the outputs by its direction (`in` where none is
/// given).  An argument with no readable type is dropped alone.
#[verifier::loop_isolation(false)]
fn collect_args(elem: &XmlElem, in_args: &mut Vec<MethodArg>, out_args: &mut Vec<MethodArg>)
    ensures
        args_view(final(in_args)@) == args_view(old(in_args)@)
            + sp_in_args(xml_view(*elem).children),
        args_view(final(out_args)@) == args_view(old(out_args)@)
            + sp_out_args(xml_view(*elem).children),
{
    let ghost cm = xmls_view(elem.children@);
    let ghost in0 = old(in_args)@;
    let ghost out0 = old(out_args)@;
    proof {
        lemma_xmls_view_pointwise(elem.children@);
        assert(cm.take(0) =~= Seq::<XmlModel>::empty());
        assert(args_view(in0) + Seq::<ArgModel>::empty() =~= args_view(in0));
        assert(args_view(out0) + Seq::<ArgModel>::empty() =~= args_view(out0));
    }
    let mut i: usize = 0;
    while i < elem.children.len()
        invariant
            i <= elem.children@.len(),
            args_view(in_args@) == args_view(in0) + sp_in_args(cm.take(i as int)),
            args_view(out_args@) == args_view(out0) + sp_out_args(cm.take(i as int)),
        decreases elem.children@.len() - i,
    {
        proof {
            assert(cm[i as int] == xml_view(elem.children@[i as int]));
            assert(cm.take(i + 1).drop_last() =~= cm.take(i as int));
            assert(cm.take(i + 1).last() == cm[i as int]);
        }
        match arg_entry(&elem.children[i]) {
            None => {
                proof {
                    assert(sp_in_args(cm.take(i + 1)) == sp_in_args(cm.take(i as int)));
                    assert(sp_out_args(cm.take(i + 1)) == sp_out_args(cm.take(i as int)));
                }
            },
            Some((out, a)) => {
                let ghost ga = a;
                if out {
                    let ghost prev = out_args@;
                    out_args.push(a);
                    proof {
                        lemma_args_view_push(prev, ga);
                        assert(args_view(out_args@)
                            =~= args_view(out0) + sp_out_args(cm.take(i + 1)));
                        assert(sp_in_args(cm.take(i + 1))
                            == sp_in_args(cm.take(i as int)));
                    }
                } else {
                    let ghost prev = in_args@;
                    in_args.push(a);
                    proof {
                        lemma_args_view_push(prev, ga);
                        assert(args_view(in_args@)
                            =~= args_view(in0) + sp_in_args(cm.take(i + 1)));
                        assert(sp_out_args(cm.take(i + 1))
                            == sp_out_args(cm.take(i as int)));
                    }
                }
            },
        }
        i = i + 1;
    }
    proof {
        assert(cm.take(elem.children@.len() as int) =~= cm);
    }
}

/// Builds one interface from its element.  Members missing a required
/// attribute are dropped alone; unknown members are skipped.
#[verifier::loop_isolation(false)]
fn build_interface(elem: &XmlElem, name: String) -> (r: Interface)
    ensures
        iface_view(r) == sp_iface_of(xml_view(*elem), name@),
{
    proof {
        reveal_strlit("method");
        reveal_strlit("signal");
        reveal_strlit("property");
        assert("method"@[0] == 'm' && "signal"@[0] == 's' && "property"@[0] == 'p');
        assert("method"@ != "signal"@);
        assert("method"@ != "property"@);
        assert("signal"@ != "property"@);
    }
    let ghost cm = xmls_view(elem.children@);
    proof {
        lemma_xmls_view_pointwise(elem.children@);
        assert(cm.take(0) =~= Seq::<XmlModel>::empty());
    }
    let mut methods: Vec<Method> = Vec::new();
    let mut signals: Vec<Signal> = Vec::new();
    let mut properties: Vec<Property> = Vec::new();
    let mut i: usize = 0;
    while i < elem.children.len()
        invariant
            i <= elem.children@.len(),
            methods_view(methods@) == sp_methods(cm.take(i as int)),
            signals_view(signals@) == sp_signals(cm.take(i as int)),
            props_view(properties@) == sp_props(cm.take(i as int)),
        decreases elem.children@.len() - i,
    {
        let child = &elem.children[i];
        proof {
            assert(cm[i as int] == xml_view(elem.children@[i as int]));
            assert(cm.take(i + 1).drop_last() =~= cm.take(i as int));
            assert(cm.take(i + 1).last() == cm[i as int]);
        }
        if str_eq(child.name.as_str(), "method") {
            if let Some(mname) = get_attr(&child.attrs, "name") {
                let ghost gname = mname@;
                let mut in_args: Vec<MethodArg> = Vec::new();
                let mut out_args: Vec<MethodArg> = Vec::new();
                collect_args(child, &mut in_args, &mut out_args);
                proof {
                    assert(args_view(in_args@) =~= sp_in_args(cm[i as int].children));
                    assert(args_view(out_args@) =~= sp_out_args(cm[i as int].children));
                }
                let ghost prev = methods@;
                let m = Method { name: mname, in_args, out_args };
                let ghost gm = m;
                methods.push(m);
                proof {
                    lemma_methods_view_push(prev, gm);
                    assert(method_view(gm) =~= MethodModel {
                        name: gname,
                        in_args: sp_in_args(cm[i as int].children),
                        out_args: sp_out_args(cm[i as int].children),
                    });
                    assert(methods_view(methods@) =~= sp_methods(cm.take(i + 1)));
                    assert(cm[i as int].name != "signal"@);
                    assert(cm[i as int].name != "property"@);
                    assert(sp_signals(cm.take(i + 1)) == sp_signals(cm.take(i as int)));
                    assert(sp_props(cm.take(i + 1)) == sp_props(cm.take(i as int)));
                }
            }
        } else if str_eq(child.name.as_str(), "signal") {
            if let Some(sname) = get_attr(&child.attrs, "name") {
                let ghost gname = sname@;
                let mut args: Vec<MethodArg> = Vec::new();
                let mut unused: Vec<MethodArg> = Vec::new();
                collect_args(child, &mut unused, &mut args);
                proof {
                    assert(args_view(args@) =~= sp_out_args(cm[i as int].children));
                    assert(args_view(unused@) =~= sp_in_args(cm[i as int].children));
                }
                let ghost uv = args_view(unused@);
                // signal arguments default to outputs; keep both kinds
                proof {
                    lemma_args_view_pointwise(unused@);
                    assert(uv.take(0) =~= Seq::<ArgModel>::empty());
                    assert(args_view(args@) + uv.take(0) =~= args_view(args@));
                }
                let ghost av0 = args_view(args@);
                let mut k: usize = 0;
                while k < unused.len()
                    invariant
                        k <= unused@.len(),
                        args_view(args@) == av0 + uv.take(k as int),
                    decreases unused@.len() - k,
                {
                    let a = MethodArg {
                        name: match &unused[k].name {
                            Some(nm) => Some(clone_string(nm)),
                            None => None,
                        },
                        sig: unused[k].sig.clone(),
                    };
                    let ghost ga = a;
                    let ghost prev = args@;
                    proof {
                        assert(arg_view(ga) =~= arg_view(unused@[k as int]));
                        assert(uv.take(k + 1)
                            =~= uv.take(k as int).push(uv[k as int]));
                    }
                    args.push(a);
                    proof {
                        lemma_args_view_push(prev, ga);
                        assert(args_view(args@) =~= av0 + uv.take(k + 1));
                    }
                    k = k + 1;
                }
                proof {
                    assert(uv.take(unused@.len() as int) =~= uv);
                }
                let ghost prev = signals@;
                let sg = Signal { name: sname, args };
                let ghost gsg = sg;
                signals.push(sg);
                proof {
                    lemma_signals_view_push(prev, gsg);
                    assert(signal_view(gsg) =~= SignalModel {
                        name: gname,
                        args: sp_out_args(cm[i as int].children)
                            + sp_in_args(cm[i as int].children),
                    });
                    assert(signals_view(signals@) =~= sp_signals(cm.take(i + 1)));
                    assert(cm[i as int].name != "method"@);
                    assert(cm[i as int].name != "property"@);
                    assert(sp_methods(cm.take(i + 1)) == sp_methods(cm.take(i as int)));
                    assert(sp_props(cm.take(i + 1)) == sp_props(cm.take(i as int)));
                }
            }
        } else if str_eq(child.name.as_str(), "property") {
            if let Some(pname) = get_attr(&child.attrs, "name") {
                if let Some(ty) = get_attr(&child.attrs, "type") {
                    if let Ok(sig) = parse_single(ty.as_str()) {
                        let access = match get_attr(&child.attrs, "access") {
                            Some(a) => {
                                if str_eq(a.as_str(), "read") {
                                    Some(Access::Read)
                                } else if str_eq(a.as_str(), "write") {
                                    Some(Access::Write)
                                } else if str_eq(a.as_str(), "readwrite") {
                                    Some(Access::ReadWrite)
                                } else {
                                    None
                                }
                            },
                            None => None,
                        };
                        if let Some(access) = access {
                            let ghost gname = pname@;
                            let ghost prev = properties@;
                            let p = Property { name: pname, sig, access };
                            let ghost gp = p;
                            properties.push(p);
                            proof {
                                lemma_props_view_push(prev, gp);
                                assert(props_view(properties@)
                                    =~= sp_props(cm.take(i + 1)));
                                assert(cm[i as int].name != "method"@);
                                assert(cm[i as int].name != "signal"@);
                                assert(sp_methods(cm.take(i + 1))
                                    == sp_methods(cm.take(i as int)));
                                assert(sp_signals(cm.take(i + 1))
                                    == sp_signals(cm.take(i as int)));
                            }
                        }
                    }
                }
            }
        }
        proof {
            assert(methods_view(methods@) == sp_methods(cm.take(i + 1)));
            assert(signals_view(signals@) == sp_signals(cm.take(i + 1)));
            assert(props_view(properties@) == sp_props(cm.take(i + 1)));
        }
        i = i + 1;
    }
    proof {
        assert(cm.take(elem.children@.len() as int) =~= cm);
    }
    let ghost gms = methods_view(methods@);
    let ghost gsgs = signals_view(signals@);
    let ghost gps = props_view(properties@);
    let r = Interface { name, methods, signals, properties };
    proof {
        assert(iface_view(r) =~= sp_iface_of(xml_view(*elem), r.name@));
    }
    r
}

/// Parses an object's XML introspection description into its tree:
/// exactly the tree the document model prescribes.  Unknown elements are
/// skipped, not fatal; a recognized element missing a required attribute
/// is dropped alone, and the parse continues.  `MalformedIntrospection`
/// exactly when the document itself is broken: unreadable or mismatched
/// tags, or a root that is not a node element.
#[verifier::loop_isolation(false)]
pub fn parse_introspection(xml: &str) -> (r: Result<Node, Error>)
    ensures
        match r {
            Ok(node) => sp_parse_introspection(xml@) == Some(node_view(node)),
            Err(e) => sp_parse_introspection(xml@) is None
                && e == Error::MalformedIntrospection,
        },
{
    proof {
        reveal_strlit("node");
        reveal_strlit("interface");
        assert("node"@.len() == 4);
        assert("interface"@.len() == 9);
        assert("node"@ != "interface"@);
    }
    let n = xml.unicode_len();
    let ghost t = xml@;
    let mut ci: usize = 0;
    let mut i = skip_ws(xml, 0);
    loop
        invariant
            0 <= ci <= i <= n,
            n == t.len(),
            t == xml@,
            i == ws_end(t, ci as int),
            sp_prolog(t, 0) == sp_prolog(t, ci as int),
        decreases n - i,
    {
        if i >= n {
            return Err(Error::MalformedIntrospection);
        }
        if xml.get_char(i) != '<' {
            return Err(Error::MalformedIntrospection);
        }
        if i + 1 < n && (xml.get_char(i + 1) == '!' || xml.get_char(i + 1) == '?') {
            match skip_misc(xml, i) {
                Ok(m) => {
                    proof {
                        assert(sp_prolog(t, ci as int) == sp_prolog(t, m as int));
                    }
                    ci = m;
                    i = skip_ws(xml, m);
                },
                Err(e) => {
                    return Err(e);
                },
            }
        } else {
            proof {
                assert(sp_prolog(t, ci as int) == Some(i as int));
            }
            break;
        }
    }
    let (root, _rest) = match parse_xml_element(xml, i) {
        Ok(p) => p,
        Err(e) => {
            return Err(e);
        },
    };
    if !str_eq(root.name.as_str(), "node") {
        return Err(Error::MalformedIntrospection);
    }
    let ghost rm = xml_view(root);
    let ghost cm = xmls_view(root.children@);
    proof {
        lemma_xmls_view_pointwise(root.children@);
        assert(cm.take(0) =~= Seq::<XmlModel>::empty());
    }
    let mut children: Vec<String> = Vec::new();
    let mut interfaces: Vec<Interface> = Vec::new();
    let mut k: usize = 0;
    while k < root.children.len()
        invariant
            k <= root.children@.len(),
            names_view(children@) == sp_child_names(cm.take(k as int)),
            ifaces_view(interfaces@) == sp_interfaces(cm.take(k as int)),
        decreases root.children@.len() - k,
    {
        let child = &root.children[k];
        proof {
            assert(cm[k as int] == xml_view(root.children@[k as int]));
            assert(cm.take(k + 1).drop_last() =~= cm.take(k as int));
            assert(cm.take(k + 1).last() == cm[k as int]);
        }
        if str_eq(child.name.as_str(), "node") {
            if let Some(nm) = get_attr(&child.attrs, "name") {
                let ghost gnm = nm;
                let ghost prev = children@;
                children.push(nm);
                proof {
                    lemma_names_view_push(prev, gnm);
                    assert(names_view(children@)
                        =~= sp_child_names(cm.take(k + 1)));
                    assert(cm[k as int].name != "interface"@);
                    assert(sp_interfaces(cm.take(k + 1))
                        == sp_interfaces(cm.take(k as int)));
                }
            }
        } else if str_eq(child.name.as_str(), "interface") {
            if let Some(nm) = get_attr(&child.attrs, "name") {
                let ghost gname = nm@;
                let iface = build_interface(child, nm);
                let ghost gif = iface;
                let ghost prev = interfaces@;
                interfaces.push(iface);
                proof {
                    lemma_ifaces_view_push(prev, gif);
                    assert(iface_view(gif)
                        =~= sp_iface_of(cm[k as int], gname));
                    assert(ifaces_view(interfaces@)
                        =~= sp_interfaces(cm.take(k + 1)));
                    assert(cm[k as int].name != "node"@);
                    assert(sp_child_names(cm.take(k + 1))
                        == sp_child_names(cm.take(k as int)));
                }
            }
        }
        proof {
            assert(names_view(children@) == sp_child_names(cm.take(k + 1)));
            assert(ifaces_view(interfaces@) == sp_interfaces(cm.take(k + 1)));
        }
        k = k + 1;
    }
    proof {
        assert(cm.take(root.children@.len() as int) =~= cm);
    }
    let node = Node { children, interfaces };
    proof {
        assert(rm.children == cm);
        assert(node_view(node) =~= sp_node_of(rm));
    }
    Ok(node)
}

/// The dynamic shape of one argument: its name (or nothing) and the
/// text of its type.
pub open spec fn arg_dyn(a: MethodArg) -> DynModel {
    DynModel::Record(seq![
        ("name"@, match a.name {
            Some(n) => DynModel::Str(n@),
            None => DynModel::Nothing,
        }),
        ("type"@, DynModel::Str(sig_text(sig_view(a.sig)))),
    ])
}

pub open spec fn args_dyn(s: Seq<MethodArg>) -> Seq<DynModel>
    decreases s,
{
    if s.len() == 0 {
        Seq::empty()
    } else {
        args_dyn(s.drop_last()).push(arg_dyn(s.last()))
    }
}

/// The dynamic shape of one method: its input and output arguments.
pub open spec fn method_dyn(m: Method) -> DynModel {
    DynModel::Record(seq![
        ("in_args"@, DynModel::List(args_dyn(m.in_args@))),
        ("out_args"@, DynModel::List(args_dyn(m.out_args@))),
    ])
}

pub open spec fn methods_dyn(s: Seq<Method>) -> Seq<(Seq<char>, DynModel)>
    decreases s,
{
    if s.len() == 0 {
        Seq::empty()
    } else {
        methods_dyn(s.drop_last()).push((s.last().name@, method_dyn(s.last())))
    }
}

pub open spec fn signal_dyn(sg: Signal) -> DynModel {
    DynModel::Record(seq![("args"@, DynModel::List(args_dyn(sg.args@)))])
}

pub open spec fn signals_dyn(s: Seq<Signal>) -> Seq<(Seq<char>, DynModel)>
    decreases s,
{
    if s.len() == 0 {
        Seq::empty()
    } else {
        signals_dyn(s.drop_last()).push((s.last().name@, signal_dyn(s.last())))
    }
}

/// The word a property's access renders as.
pub open spec fn access_text(a: Access) -> Seq<char> {
    match a {
        Access::Read => "read"@,
        Access::Write => "write"@,
        Access::ReadWrite => "readwrite"@,
    }
}

pub open spec fn prop_dyn(p: Property) -> DynModel {
    DynModel::Record(seq![
        ("type"@, DynModel::Str(sig_text(sig_view(p.sig)))),
        ("access"@, DynModel::Str(access_text(p.access))),
    ])
}

pub open spec fn props_dyn(s: Seq<Property>) -> Seq<(Seq<char>, DynModel)>
    decreases s,
{
    if s.len() == 0 {
        Seq::empty()
    } else {
        props_dyn(s.drop_last()).push((s.last().name@, prop_dyn(s.last())))
    }
}

/// The dynamic shape of one interface.
pub open spec fn iface_dyn(i: Interface) -> DynModel {
    DynModel::Record(seq![
        ("name"@, DynModel::Str(i.name@)),
        ("methods"@, DynModel::Record(methods_dyn(i.methods@))),
        ("signals"@, DynModel::Record(signals_dyn(i.signals@))),
        ("properties"@, DynModel::Record(props_dyn(i.properties@))),
    ])
}

pub open spec fn ifaces_dyn(s: Seq<Interface>) -> Seq<DynModel>
    decreases s,
{
    if s.len() == 0 {
        Seq::empty()
    } else {
        ifaces_dyn(s.drop_last()).push(iface_dyn(s.last()))
    }
}

pub open spec fn strs_dyn(s: Seq<String>) -> Seq<DynModel>
    decreases s,
{
    if s.len() == 0 {
        Seq::empty()
    } else {
        strs_dyn(s.drop_last()).push(DynModel::Str(s.last()@))
    }
}

/// The dynamic shape of a whole description: a record of the child node
/// names and the interfaces.
pub open spec fn node_dyn(children: Seq<String>, ifaces: Seq<Interface>) -> DynModel {
    DynModel::Record(seq![
        ("children"@, DynModel::List(strs_dyn(children))),
        ("interfaces"@, DynModel::List(ifaces_dyn(ifaces))),
    ])
}

fn arg_to_value(a: &MethodArg) -> (r: DynValue)
    ensures
        r@ == arg_dyn(*a),
{
    let mut fields: Vec<(String, DynValue)> = Vec::new();
    let nv = match &a.name {
        Some(n) => DynValue::Str(clone_string(n)),
        None => DynValue::Nothing,
    };
    let ghost nvm = dyn_view(nv);
    fields.push((String::from_str("name"), nv));
    let tv = DynValue::Str(crate::signature::to_text(&a.sig));
    let ghost tvm = dyn_view(tv);
    fields.push((String::from_str("type"), tv));
    proof {
        lemma_fields_view_pointwise(fields@);
        assert(fields@[0].0@ == "name"@ && fields@[0].1 == nv);
        assert(fields@[1].0@ == "type"@);
        assert(fields_view(fields@)[0] == ("name"@, nvm));
        assert(fields_view(fields@)[1] == ("type"@, tvm));
        assert(fields_view(fields@) =~= seq![("name"@, nvm), ("type"@, tvm)]);
        assert(tvm == DynModel::Str(sig_text(sig_view(a.sig))));
        assert(nvm == (match a.name {
            Some(n) => DynModel::Str(n@),
            None => DynModel::Nothing,
        }));
        let ad = arg_dyn(*a)->Record_0;
        assert(arg_dyn(*a) == DynModel::Record(ad));
        assert(ad.len() == 2);
        assert(ad[0] == ("name"@, nvm));
        assert(ad[1] == ("type"@, tvm));
        assert(fields_view(fields@) =~= ad);
    }
    DynValue::Record(fields)
}

#[verifier::loop_isolation(false)]
fn args_to_value(args: &Vec<MethodArg>) -> (r: Vec<DynValue>)
    ensures
        dyns_view(r@) == args_dyn(args@),
{
    proof {
        assert(args@.take(0) =~= Seq::<MethodArg>::empty());
    }
    let mut out: Vec<DynValue> = Vec::new();
    let mut i: usize = 0;
    while i < args.len()
        invariant
            i <= args@.len(),
            dyns_view(out@) == args_dyn(args@.take(i as int)),
        decreases args@.len() - i,
    {
        let ghost prev = out@;
        let v = arg_to_value(&args[i]);
        out.push(v);
        proof {
            crate::value::lemma_dyns_view_push(prev, v);
            assert(args@.take(i + 1).drop_last() =~= args@.take(i as int));
            assert(args@.take(i + 1).last() == args@[i as int]);
            assert(dyns_view(out@) =~= args_dyn(args@.take(i + 1)));
        }
        i = i + 1;
    }
    proof {
        assert(args@.take(args@.len() as int) =~= args@);
    }
    out
}

fn method_to_value(m: &Method) -> (r: DynValue)
    ensures
        r@ == method_dyn(*m),
{
    let mut fields: Vec<(String, DynValue)> = Vec::new();
    let iv = DynValue::List(args_to_value(&m.in_args));
    let ghost ivm = dyn_view(iv);
    fields.push((String::from_str("in_args"), iv));
    let ov = DynValue::List(args_to_value(&m.out_args));
    let ghost ovm = dyn_view(ov);
    fields.push((String::from_str("out_args"), ov));
    proof {
        lemma_fields_view_pointwise(fields@);
        assert(fields@[0].0@ == "in_args"@ && fields@[0].1 == iv);
        assert(fields@[1].0@ == "out_args"@);
        assert(fields_view(fields@)[0] == ("in_args"@, ivm));
        assert(fields_view(fields@)[1] == ("out_args"@, ovm));
        assert(fields_view(fields@) =~= seq![("in_args"@, ivm), ("out_args"@, ovm)]);
        assert(DynModel::Record(fields_view(fields@)) =~= method_dyn(*m));
    }
    DynValue::Record(fields)
}

fn signal_to_value(sg: &Signal) -> (r: DynValue)
    ensures
        r@ == signal_dyn(*sg),
{
    let mut fields: Vec<(String, DynValue)> = Vec::new();
    let av = DynValue::List(args_to_value(&sg.args));
    let ghost avm = dyn_view(av);
    fields.push((String::from_str("args"), av));
    proof {
        lemma_fields_view_pointwise(fields@);
        assert(fields@[0].0@ == "args"@ && fields@[0].1 == av);
        assert(fields_view(fields@)[0] == ("args"@, avm));
        assert(fields_view(fields@) =~= seq![("args"@, avm)]);
        assert(DynModel::Record(fields_view(fields@)) =~= signal_dyn(*sg));
    }
    DynValue::Record(fields)
}

fn prop_to_value(p: &Property) -> (r: DynValue)
    ensures
        r@ == prop_dyn(*p),
{
    let mut fields: Vec<(String, DynValue)> = Vec::new();
    let tv = DynValue::Str(crate::signature::to_text(&p.sig));
    let ghost tvm = dyn_view(tv);
    fields.push((String::from_str("type"), tv));
    let av = DynValue::Str(match p.access {
        Access::Read => String::from_str("read"),
        Access::Write => String::from_str("write"),
        Access::ReadWrite => String::from_str("readwrite"),
    });
    let ghost avm = dyn_view(av);
    fields.push((String::from_str("access"), av));
    proof {
        lemma_fields_view_pointwise(fields@);
        assert(fields@[0].0@ == "type"@ && fields@[0].1 == tv);
        assert(fields@[1].0@ == "access"@);
        assert(fields_view(fields@)[0] == ("type"@, tvm));
        assert(fields_view(fields@)[1] == ("access"@, avm));
        assert(fields_view(fields@) =~= seq![("type"@, tvm), ("access"@, avm)]);
        assert(DynModel::Record(fields_view(fields@)) =~= prop_dyn(*p));
    }
    DynValue::Record(fields)
}

fn iface_to_value(i: &Interface) -> (r: DynValue)
    ensures
        r@ == iface_dyn(*i),
{
    let mut fields: Vec<(String, DynValue)> = Vec::new();
    let nv = DynValue::Str(clone_string(&i.name));
    let ghost nvm = dyn_view(nv);
    fields.push((String::from_str("name"), nv));
    let mv = DynValue::Record(methods_to_entries(&i.methods));
    let ghost mvm = dyn_view(mv);
    fields.push((String::from_str("methods"), mv));
    let sv = DynValue::Record(signals_to_entries(&i.signals));
    let ghost svm = dyn_view(sv);
    fields.push((String::from_str("signals"), sv));
    let pv = DynValue::Record(props_to_entries(&i.properties));
    let ghost pvm = dyn_view(pv);
    fields.push((String::from_str("properties"), pv));
    proof {
        lemma_fields_view_pointwise(fields@);
        assert(fields@[0].0@ == "name"@ && fields@[0].1 == nv);
        assert(fields@[1].0@ == "methods"@ && fields@[1].1 == mv);
        assert(fields@[2].0@ == "signals"@ && fields@[2].1 == sv);
        assert(fields@[3].0@ == "properties"@);
        assert(fields_view(fields@)[0] == ("name"@, nvm));
        assert(fields_view(fields@)[1] == ("methods"@, mvm));
        assert(fields_view(fields@)[2] == ("signals"@, svm));
        assert(fields_view(fields@)[3] == ("properties"@, pvm));
        assert(fields_view(fields@) =~= seq![("name"@, nvm), ("methods"@, mvm),
            ("signals"@, svm), ("properties"@, pvm)]);
        assert(DynModel::Record(fields_view(fields@)) =~= iface_dyn(*i));
    }
    DynValue::Record(fields)
}

#[verifier::loop_isolation(false)]
fn methods_to_entries(ms: &Vec<Method>) -> (r: Vec<(String, DynValue)>)
    ensures
        fields_view(r@) == methods_dyn(ms@),
{
    proof {
        assert(ms@.take(0) =~= Seq::<Method>::empty());
    }
    let mut out: Vec<(String, DynValue)> = Vec::new();
    let mut i: usize = 0;
    while i < ms.len()
        invariant
            i <= ms@.len(),
            fields_view(out@) == methods_dyn(ms@.take(i as int)),
        decreases ms@.len() - i,
    {
        let ghost prev = out@;
        let nm = clone_string(&ms[i].name);
        let mv = method_to_value(&ms[i]);
        let ghost entry = (nm, mv);
        out.push((nm, mv));
        proof {
            crate::value::lemma_fields_view_push(prev, entry);
            assert(ms@.take(i + 1).drop_last() =~= ms@.take(i as int));
            assert(ms@.take(i + 1).last() == ms@[i as int]);
            assert(fields_view(out@) =~= methods_dyn(ms@.take(i + 1)));
        }
        i = i + 1;
    }
    proof {
        assert(ms@.take(ms@.len() as int) =~= ms@);
    }
    out
}

#[verifier::loop_isolation(false)]
fn signals_to_entries(sgs: &Vec<Signal>) -> (r: Vec<(String, DynValue)>)
    ensures
        fields_view(r@) == signals_dyn(sgs@),
{
    proof {
        assert(sgs@.take(0) =~= Seq::<Signal>::empty());
    }
    let mut out: Vec<(String, DynValue)> = Vec::new();
    let mut i: usize = 0;
    while i < sgs.len()
        invariant
            i <= sgs@.len(),
            fields_view(out@) == signals_dyn(sgs@.take(i as int)),
        decreases sgs@.len() - i,
    {
        let ghost prev = out@;
        let nm = clone_string(&sgs[i].name);
        let sv = signal_to_value(&sgs[i]);
        let ghost entry = (nm, sv);
        out.push((nm, sv));
        proof {
            crate::value::lemma_fields_view_push(prev, entry);
            assert(sgs@.take(i + 1).drop_last() =~= sgs@.take(i as int));
            assert(sgs@.take(i + 1).last() == sgs@[i as int]);
            assert(fields_view(out@) =~= signals_dyn(sgs@.take(i + 1)));
        }
        i = i + 1;
    }
    proof {
        assert(sgs@.take(sgs@.len() as int) =~= sgs@);
    }
    out
}

#[verifier::loop_isolation(false)]
fn props_to_entries(ps: &Vec<Property>) -> (r: Vec<(String, DynValue)>)
    ensures
        fields_view(r@) == props_dyn(ps@),
{
    proof {
        assert(ps@.take(0) =~= Seq::<Property>::empty());
    }
    let mut out: Vec<(String, DynValue)> = Vec::new();
    let mut i: usize = 0;
    while i < ps.len()
        invariant
            i <= ps@.len(),
            fields_view(out@) == props_dyn(ps@.take(i as int)),
        decreases ps@.len() - i,
    {
        let ghost prev = out@;
        let nm = clone_string(&ps[i].name);
        let pv = prop_to_value(&ps[i]);
        let ghost entry = (nm, pv);
        out.push((nm, pv));
        proof {
            crate::value::lemma_fields_view_push(prev, entry);
            assert(ps@.take(i + 1).drop_last() =~= ps@.take(i as int));
            assert(ps@.take(i + 1).last() == ps@[i as int]);
            assert(fields_view(out@) =~= props_dyn(ps@.take(i + 1)));
        }
        i = i + 1;
    }
    proof {
        assert(ps@.take(ps@.len() as int) =~= ps@);
    }
    out
}

impl Node {
    /// The external dynamic representation of a description: a record
    /// holding the child node names and the interfaces with their
    /// methods, signals and properties.
    #[verifier::loop_isolation(false)]
    pub fn to_value(&self) -> (r: DynValue)
        ensures
            r@ == node_dyn(self.children@, self.interfaces@),
    {
        proof {
            assert(self.children@.take(0) =~= Seq::<String>::empty());
            assert(self.interfaces@.take(0) =~= Seq::<Interface>::empty());
        }
        let mut kids: Vec<DynValue> = Vec::new();
        let mut i: usize = 0;
        while i < self.children.len()
            invariant
                i <= self.children@.len(),
                dyns_view(kids@) == strs_dyn(self.children@.take(i as int)),
            decreases self.children@.len() - i,
        {
            let ghost prev = kids@;
            let v = DynValue::Str(clone_string(&self.children[i]));
            kids.push(v);
            proof {
                crate::value::lemma_dyns_view_push(prev, v);
                assert(self.children@.take(i + 1).drop_last()
                    =~= self.children@.take(i as int));
                assert(self.children@.take(i + 1).last()
                    == self.children@[i as int]);
                assert(dyns_view(kids@) =~= strs_dyn(self.children@.take(i + 1)));
            }
            i = i + 1;
        }
        let mut ifs: Vec<DynValue> = Vec::new();
        let mut j: usize = 0;
        while j < self.interfaces.len()
            invariant
                j <= self.interfaces@.len(),
                ifs@.len() == j,
                dyns_view(ifs@) == ifaces_dyn(self.interfaces@.take(j as int)),
            decreases self.interfaces@.len() - j,
        {
            let ghost prev = ifs@;
            let v = iface_to_value(&self.interfaces[j]);
            ifs.push(v);
            proof {
                crate::value::lemma_dyns_view_push(prev, v);
                assert(self.interfaces@.take(j + 1).drop_last()
                    =~= self.interfaces@.take(j as int));
                assert(self.interfaces@.take(j + 1).last()
                    == self.interfaces@[j as int]);
                assert(dyns_view(ifs@) =~= ifaces_dyn(self.interfaces@.take(j + 1)));
            }
            j = j + 1;
        }
        let mut fields: Vec<(String, DynValue)> = Vec::new();
        let cv = DynValue::List(kids);
        let ghost cvm = dyn_view(cv);
        fields.push((String::from_str("children"), cv));
        let iv = DynValue::List(ifs);
        let ghost ivm = dyn_view(iv);
        fields.push((String::from_str("interfaces"), iv));
        proof {
            lemma_fields_view_pointwise(fields@);
            assert(self.children@.take(self.children@.len() as int)
                =~= self.children@);
            assert(self.interfaces@.take(self.interfaces@.len() as int)
                =~= self.interfaces@);
            assert(fields@[0].0@ == "children"@ && fields@[0].1 == cv);
            assert(fields@[1].0@ == "interfaces"@);
            assert(fields_view(fields@)[0] == ("children"@, cvm));
            assert(fields_view(fields@)[1] == ("interfaces"@, ivm));
            assert(fields_view(fields@) =~= seq![("children"@, cvm),
                ("interfaces"@, ivm)]);
            assert(DynModel::Record(fields_view(fields@))
                =~= node_dyn(self.children@, self.interfaces@));
        }
        DynValue::Record(fields)
    }
}

/// A prefix of the argument sequence maps to a prefix of the signatures.
proof fn lemma_arg_sigs_take(args: Seq<MethodArg>, j: int)
    requires
        0 <= j < args.len(),
    ensures
        arg_sigs(args.take(j + 1)) =~= arg_sigs(args.take(j)).push(
            sig_view(args[j].sig)),
    decreases j,
{
    lemma_arg_sigs_pointwise(args.take(j + 1));
    lemma_arg_sigs_pointwise(args.take(j));
    assert forall|i: int| 0 <= i < j + 1
        implies arg_sigs(args.take(j + 1))[i]
            == arg_sigs(args.take(j)).push(sig_view(args[j].sig))[i] by {
        assert(args.take(j + 1)[i] == args[i]);
        if i < j {
            assert(args.take(j)[i] == args[i]);
            assert(arg_sigs(args.take(j))[i] == sig_view(args.take(j)[i].sig));
        }
    }
}

/// `arg_sigs` is the elementwise image of the argument's type model.
proof fn lemma_arg_sigs_pointwise(args: Seq<MethodArg>)
    ensures
        arg_sigs(args).len() == args.len(),
        forall|i: int| 0 <= i < args.len()
            ==> arg_sigs(args)[i] == sig_view((#[trigger] args[i]).sig),
    decreases args.len(),
{
    if args.len() > 0 {
        lemma_arg_sigs_pointwise(args.drop_first());
        assert forall|i: int| 0 <= i < args.len()
            implies arg_sigs(args)[i] == sig_view((#[trigger] args[i]).sig) by {
            if i > 0 {
                assert(args.drop_first()[i - 1] == args[i]);
                assert(arg_sigs(args.drop_first())[i - 1]
                    == sig_view(args.drop_first()[i - 1].sig));
            }
        }
    }
}

} // verus!
