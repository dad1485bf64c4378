//! The bus client's decision logic, free of any transport: how the
//! signature for a call is chosen, how arguments are encoded against it,
//! how replies are decoded, and how name listings are filtered.  The
//! hosting program owns the connection, performs each wire exchange, and
//! feeds the results back through these functions.

use vstd::prelude::*;

use crate::convert::decode;
use crate::convert::enc_res;
use crate::convert::sp_decode;
use crate::convert::sp_decode_list;
use crate::convert::sp_encode_struct;
use crate::error::Error;
use crate::introspect::Access;
use crate::pattern::Pattern;
use crate::pattern::sp_match;
use crate::pattern::split_segs;
use crate::signature::Signature;
use crate::signature::sigs_view;
use crate::signature::sp_parse_sigs;
use crate::signature::valid_sig_text;
use crate::signature::parse;
use crate::value::DynValue;
use crate::value::WireValue;
use crate::value::WireModel;
use crate::value::dyns_view;
use crate::value::wires_view;
use crate::value::wire_view;
use crate::value::lemma_dyns_view_pointwise;
use crate::value::lemma_wires_view_push;
use crate::value::lemma_wires_view_pointwise;
use crate::value::lemma_dyns_view_push;
use crate::signature::lemma_sigs_view_pointwise;

verus! {

broadcast use vstd::std_specs::vec::group_vec_axioms, vstd::seq::group_seq_axioms;

/// The default deadline for one bus exchange, in milliseconds.
pub const DEFAULT_TIMEOUT_MS: u64 = 2000;

/// Where the signature for a call will come from.
#[derive(Debug)]
pub enum SignaturePlan {
    /// The caller supplied one; it parsed to these signatures.
    Explicit(Vec<Signature>),
    /// None was given: resolve it by introspecting the object.
    Introspect,
    /// None was given and introspection is disabled: guess from the
    /// arguments' shapes.
    Guess,
}

/// The stages one bus operation passes through, in order; any failure
/// moves it to `Failed`.
#[derive(Clone, Copy, Debug, PartialEq, Eq, Structural)]
pub enum OpStage {
    Idle,
    Resolving,
    Encoding,
    InFlight,
    Decoding,
    Done,
    Failed,
}

/// The next stage of an operation: the natural successor when the step
/// succeeded, `Failed` from any stage otherwise.
pub fn next_stage(stage: OpStage, ok: bool) -> (r: OpStage)
    ensures
        !ok ==> r == OpStage::Failed,
        ok ==> r == match stage {
            OpStage::Idle => OpStage::Resolving,
            OpStage::Resolving => OpStage::Encoding,
            OpStage::Encoding => OpStage::InFlight,
            OpStage::InFlight => OpStage::Decoding,
            OpStage::Decoding => OpStage::Done,
            OpStage::Done => OpStage::Done,
            OpStage::Failed => OpStage::Failed,
        },
{
    if !ok {
        return OpStage::Failed;
    }
    match stage {
        OpStage::Idle => OpStage::Resolving,
        OpStage::Resolving => OpStage::Encoding,
        OpStage::Encoding => OpStage::InFlight,
        OpStage::InFlight => OpStage::Decoding,
        OpStage::Decoding => OpStage::Done,
        OpStage::Done => OpStage::Done,
        OpStage::Failed => OpStage::Failed,
    }
}

/// Chooses where a call's signature comes from: an explicit signature
/// text wins and must parse; otherwise introspection, unless disabled;
/// otherwise guessing from the arguments' shapes.
pub fn plan_call_signature(explicit: Option<&String>, no_introspect: bool) -> (r: Result<
    SignaturePlan,
    Error,
>)
    ensures
        match explicit {
            Some(t) => match r {
                Ok(p) => p matches SignaturePlan::Explicit(sigs)
                    && sp_parse_sigs(t@, 0) == Some(sigs_view(sigs@)),
                Err(e) => !valid_sig_text(t@) && e == Error::MalformedSignature,
            },
            None => r matches Ok(p) && (if no_introspect {
                p is Guess
            } else {
                p is Introspect
            }),
        },
{
    match explicit {
        Some(text) => match parse(text.as_str()) {
            Ok(sigs) => Ok(SignaturePlan::Explicit(sigs)),
            Err(e) => Err(e),
        },
        None => {
            if no_introspect {
                Ok(SignaturePlan::Guess)
            } else {
                Ok(SignaturePlan::Introspect)
            }
        },
    }
}

/// Encodes the call's arguments positionally against the resolved
/// signatures.  A count mismatch is reported before any encoding; then
/// each argument is encoded in order and the leftmost failure wins.
#[verifier::loop_isolation(false)]
pub fn encode_args(args: &Vec<DynValue>, sigs: &Vec<Signature>) -> (r: Result<
    Vec<WireValue>,
    Error,
>)
    ensures
        match r {
            Ok(ws) => args@.len() == sigs@.len()
                && sp_encode_struct(dyns_view(args@), sigs_view(sigs@))
                    == Ok::<Seq<WireModel>, Error>(wires_view(ws@)),
            Err(e) => if args@.len() != sigs@.len() {
                e == (Error::ArgumentCountMismatch {
                    expected_count: sigs@.len() as usize,
                    actual_count: args@.len() as usize,
                })
            } else {
                sp_encode_struct(dyns_view(args@), sigs_view(sigs@))
                    == Err::<Seq<WireModel>, Error>(e)
            },
        },
{
    let ghost am = dyns_view(args@);
    let ghost sm = sigs_view(sigs@);
    proof {
        lemma_dyns_view_pointwise(args@);
        lemma_sigs_view_pointwise(sigs@);
    }
    if args.len() != sigs.len() {
        return Err(Error::ArgumentCountMismatch {
            expected_count: sigs.len(),
            actual_count: args.len(),
        });
    }
    proof {
        assert(am.take(0) =~= Seq::<crate::value::DynModel>::empty());
        assert(sm.take(0) =~= Seq::<crate::signature::SigModel>::empty());
    }
    let mut out: Vec<WireValue> = Vec::new();
    let mut i: usize = 0;
    while i < args.len()
        invariant
            i <= args@.len(),
            args@.len() == sigs@.len(),
            sp_encode_struct(am.take(i as int), sm.take(i as int))
                == Ok::<Seq<WireModel>, Error>(wires_view(out@)),
        decreases args@.len() - i,
    {
        proof {
            assert(am.take(i + 1).drop_last() =~= am.take(i as int));
            assert(am.take(i + 1).last() == am[i as int]);
            assert(sm.take(i + 1).drop_last() =~= sm.take(i as int));
            assert(sm.take(i + 1).last() == sm[i as int]);
        }
        match crate::convert::encode(&args[i], &sigs[i]) {
            Err(e) => {
                proof {
                    lemma_encode_struct_take_err(am, sm, i + 1);
                }
                return Err(e);
            },
            Ok(w) => {
                let ghost prev = out@;
                let ghost gw = w;
                out.push(w);
                proof {
                    lemma_wires_view_push(prev, gw);
                }
            },
        }
        i = i + 1;
    }
    proof {
        assert(am.take(args@.len() as int) =~= am);
        assert(sm.take(sigs@.len() as int) =~= sm);
    }
    Ok(out)
}

/// An encoding failure on a prefix settles the whole argument list.
proof fn lemma_encode_struct_take_err(
    es: Seq<crate::value::DynModel>,
    ms: Seq<crate::signature::SigModel>,
    j: int,
)
    requires
        es.len() == ms.len(),
        0 <= j <= es.len(),
        sp_encode_struct(es.take(j), ms.take(j)) is Err,
    ensures
        sp_encode_struct(es, ms) == sp_encode_struct(es.take(j), ms.take(j)),
    decreases es.len() - j,
{
    if j == es.len() {
        assert(es.take(j) =~= es);
        assert(ms.take(j) =~= ms);
    } else {
        assert(es.take(j + 1).drop_last() =~= es.take(j));
        assert(ms.take(j + 1).drop_last() =~= ms.take(j));
        lemma_encode_struct_take_err(es, ms, j + 1);
    }
}

/// Decodes every out-argument of a reply independently; an empty reply
/// gives an empty sequence.
#[verifier::loop_isolation(false)]
pub fn decode_reply(outs: &Vec<WireValue>) -> (r: Vec<DynValue>)
    ensures
        dyns_view(r@) == sp_decode_list(wires_view(outs@)),
{
    let ghost wm = wires_view(outs@);
    proof {
        lemma_wires_view_pointwise(outs@);
        assert(wm.take(0) =~= Seq::<WireModel>::empty());
    }
    let mut out: Vec<DynValue> = Vec::new();
    let mut i: usize = 0;
    while i < outs.len()
        invariant
            i <= outs@.len(),
            dyns_view(out@) == sp_decode_list(wm.take(i as int)),
        decreases outs@.len() - i,
    {
        let ghost prev = out@;
        let d = decode(&outs[i]);
        out.push(d);
        proof {
            lemma_dyns_view_push(prev, d);
            assert(wm.take(i + 1).drop_last() =~= wm.take(i as int));
            assert(wm.take(i + 1).last() == wm[i as int]);
            assert(sp_decode_list(wm.take(i + 1))
                == sp_decode_list(wm.take(i as int)).push(sp_decode(wm[i as int])));
            assert(dyns_view(out@) =~= sp_decode_list(wm.take(i + 1)));
        }
        i = i + 1;
    }
    proof {
        assert(wm.take(outs@.len() as int) =~= wm);
    }
    out
}

/// Decodes the reply of a whole-interface property read.  The reply must
/// be the expected dictionary envelope; each property's value inside it
/// decodes permissively, whatever its shape.
pub fn decode_get_all(reply: &WireValue) -> (r: Result<DynValue, Error>)
    ensures
        match r {
            Ok(v) => reply@ is Dict && v@ == sp_decode(reply@),
            Err(e) => !(reply@ is Dict) && e == Error::BusError,
        },
{
    match reply {
        WireValue::Dict(_, _, _) => Ok(decode(reply)),
        _ => Err(Error::BusError),
    }
}

/// Refuses a property write when the introspected access is read-only.
/// Consulted whenever introspection resolved the property; a caller that
/// supplied an explicit signature with introspection disabled never
/// learns an access and skips this check.
pub fn require_writable(access: Access) -> (r: Result<(), Error>)
    ensures
        (r is Ok) == (access != Access::Read),
        r matches Err(e) ==> e == Error::PropertyNotWritable,
{
    match access {
        Access::Read => Err(Error::PropertyNotWritable),
        _ => Ok(()),
    }
}

/// The names that the pattern accepts, in their original order.
pub open spec fn sp_filter(ns: Seq<String>, pm: Seq<crate::pattern::MatchModel>) -> Seq<
    String,
>
    decreases ns,
{
    if ns.len() == 0 {
        Seq::empty()
    } else {
        let head = sp_filter(ns.drop_last(), pm);
        if sp_match(pm, split_segs(ns.last()@)) {
            head.push(ns.last())
        } else {
            head
        }
    }
}

/// Filters a name listing: with no pattern the listing passes unchanged,
/// in the order received; with one, exactly the matching names remain,
/// in order.
#[verifier::loop_isolation(false)]
pub fn filter_names(names: Vec<String>, pattern: Option<&Pattern>) -> (r: Vec<String>)
    ensures
        match pattern {
            None => r@ == names@,
            Some(p) => r@ == sp_filter(names@, p@),
        },
{
    match pattern {
        None => names,
        Some(p) => {
            let ghost all = names@;
            proof {
                assert(all.take(0) =~= Seq::<String>::empty());
                assert(all.skip(0) =~= all);
            }
            let mut rest = names;
            let total = rest.len();
            proof {
                assert(all.len() == total);
            }
            let mut out: Vec<String> = Vec::new();
            let mut i: usize = 0;
            while rest.len() > 0
                invariant
                    i <= all.len(),
                    rest@ == all.skip(i as int),
                    out@ == sp_filter(all.take(i as int), p@),
                decreases rest@.len(),
            {
                proof {
                    assert(all.skip(i as int).len() == all.len() - i);
                    assert(i < all.len());
                }
                let ghost restv = rest@;
                let name = rest.remove(0);
                proof {
                    assert(restv[0] == all[i as int]);
                    assert(restv.remove(0) =~= all.skip(i + 1));
                    assert(all.take(i + 1).drop_last() =~= all.take(i as int));
                    assert(all.take(i + 1).last() == all[i as int]);
                }
                let keep = p.matches(name.as_str());
                if keep {
                    out.push(name);
                }
                i = i + 1;
            }
            proof {
                assert(all.take(all.len() as int) =~= all);
                assert(all.skip(i as int).len() == 0);
            }
            out
        },
    }
}

} // verus!
