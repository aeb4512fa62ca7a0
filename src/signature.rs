//! The signature model: a declaration split into required parameters and
//! optional ones with their default expressions, and its path.
//!
//! Types, patterns and default expressions are carried as text: they are
//! never interpreted here, only stored and handed back.

use vstd::prelude::*;
use crate::dispatch::{generate_macro, DispatchTable};

verus! {

/// One declared parameter, as the declaration's parser found it.
#[derive(Clone, Debug)]
pub enum ParamItem {
    /// A receiver such as `self` or `&mut self`.
    Receiver,
    /// A typed parameter, with its default expression if it has one.
    Typed { name: String, default: Option<String> },
}

/// An optional parameter and its default expression.
#[derive(Clone, Debug)]
pub struct OptionalParam {
    pub name: String,
    pub default: String,
}

/// The parameters of a declaration, required ones first.
#[derive(Clone, Debug)]
pub struct Args {
    pub required: Vec<String>,
    pub optional: Vec<OptionalParam>,
}

/// Why a declaration is rejected.
#[derive(Clone, Copy, Debug, PartialEq, Eq, Structural)]
pub enum SignatureError {
    /// A parameter is a receiver; method-style calls are not supported.
    ReceiverNotSupported,
    /// A required parameter follows an optional one.
    RequiredAfterOptional,
    /// A path of more than one segment does not start at the crate root.
    PathMustStartAtRoot,
}

/// A checked declaration.
#[derive(Clone, Debug)]
pub struct Signature {
    /// The generated dispatcher is exported from its crate.
    pub export: bool,
    /// The module path from the crate root, where the declaration gave one.
    pub path: Option<Vec<String>>,
    pub name: String,
    pub args: Args,
}

pub open spec fn is_receiver(p: ParamItem) -> bool {
    p is Receiver
}

pub open spec fn has_default(p: ParamItem) -> bool {
    match p {
        ParamItem::Typed { default, .. } => default is Some,
        ParamItem::Receiver => false,
    }
}

pub open spec fn is_required(p: ParamItem) -> bool {
    match p {
        ParamItem::Typed { default, .. } => default is None,
        ParamItem::Receiver => false,
    }
}

pub open spec fn param_name(p: ParamItem) -> Seq<char> {
    match p {
        ParamItem::Typed { name, .. } => name@,
        ParamItem::Receiver => Seq::empty(),
    }
}

pub open spec fn default_text(p: ParamItem) -> Seq<char> {
    match p {
        ParamItem::Typed { default: Some(d), .. } => d@,
        _ => Seq::empty(),
    }
}

pub open spec fn has_receiver(ps: Seq<ParamItem>) -> bool {
    exists|i: int| 0 <= i < ps.len() && #[trigger] is_receiver(ps[i])
}

pub open spec fn has_required_after_optional(ps: Seq<ParamItem>) -> bool {
    exists|i: int, j: int| 0 <= i < j < ps.len() && #[trigger] has_default(ps[i]) && #[trigger] is_required(ps[j])
}

/// Some parameter before position `i` has a default.
pub open spec fn optional_before(ps: Seq<ParamItem>, i: int) -> bool {
    exists|j: int| 0 <= j < i && #[trigger] has_default(ps[j])
}

/// The parameter at `i` is rejected: it is a receiver, or a required
/// parameter after an optional one.
pub open spec fn offends_at(ps: Seq<ParamItem>, i: int) -> bool {
    is_receiver(ps[i]) || (is_required(ps[i]) && optional_before(ps, i))
}

/// `i` is the first rejected parameter in declaration order.
pub open spec fn first_offending(ps: Seq<ParamItem>, i: int) -> bool {
    &&& 0 <= i < ps.len()
    &&& offends_at(ps, i)
    &&& forall|j: int| 0 <= j < i ==> !#[trigger] offends_at(ps, j)
}

/// The error of a parameter that is rejected.
pub open spec fn error_of(p: ParamItem) -> SignatureError {
    if is_receiver(p) {
        SignatureError::ReceiverNotSupported
    } else {
        SignatureError::RequiredAfterOptional
    }
}

/// The error that a parameter list draws: that of its first rejected
/// parameter, in declaration order.
pub open spec fn params_error(ps: Seq<ParamItem>) -> Option<SignatureError> {
    if exists|i: int| first_offending(ps, i) {
        Some(error_of(ps[choose|i: int| first_offending(ps, i)]))
    } else {
        None
    }
}

/// With no rejected parameter, the list has no receiver and no required
/// parameter after an optional one.
proof fn lemma_no_offence(ps: Seq<ParamItem>)
    requires
        forall|i: int| 0 <= i < ps.len() ==> !#[trigger] offends_at(ps, i),
    ensures
        !has_receiver(ps),
        !has_required_after_optional(ps),
{
    if has_receiver(ps) {
        let i = choose|i: int| 0 <= i < ps.len() && #[trigger] is_receiver(ps[i]);
        assert(offends_at(ps, i));
    }
    if has_required_after_optional(ps) {
        let (i, j) = choose|i: int, j: int|
            0 <= i < j < ps.len() && #[trigger] has_default(ps[i]) && #[trigger] is_required(ps[j]);
        assert(optional_before(ps, j));
        assert(offends_at(ps, j));
    }
}

/// A first rejected parameter is the only one.
proof fn lemma_first_offending_unique(ps: Seq<ParamItem>, i: int)
    requires
        first_offending(ps, i),
    ensures
        params_error(ps) == Some(error_of(ps[i])),
{
    let c = choose|c: int| first_offending(ps, c);
    if c < i {
        assert(!offends_at(ps, c));
    } else if i < c {
        assert(!offends_at(ps, i));
    }
}

/// `req` and `opt` list the first `req.len() + opt.len()` parameters of `ps`:
/// the required ones by name, then the optional ones by name and default.
pub open spec fn lists_prefix(req: Seq<String>, opt: Seq<OptionalParam>, ps: Seq<ParamItem>) -> bool {
    &&& req.len() + opt.len() <= ps.len()
    &&& forall|i: int| 0 <= i < req.len() ==> #[trigger] is_required(ps[i])
    &&& forall|i: int| req.len() <= i < req.len() + opt.len() ==> #[trigger] has_default(ps[i])
    &&& forall|i: int| 0 <= i < req.len() ==> (#[trigger] req[i])@ == param_name(ps[i])
    &&& forall|i: int|
        0 <= i < opt.len() ==> (#[trigger] opt[i]).name@ == param_name(ps[req.len() + i]) && opt[i].default@
            == default_text(ps[req.len() + i])
}

impl Args {
    /// `self` lists all of the parameters `ps`, in declaration order.
    pub open spec fn lists(&self, ps: Seq<ParamItem>) -> bool {
        &&& lists_prefix(self.required@, self.optional@, ps)
        &&& self.required@.len() + self.optional@.len() == ps.len()
    }
}

/// Whether some parameter is a receiver.
pub fn using_self(params: &Vec<ParamItem>) -> (r: bool)
    ensures
        r == has_receiver(params@),
{
    let mut i: usize = 0;
    while i < params.len()
        invariant
            i <= params@.len(),
            forall|j: int| 0 <= j < i ==> !#[trigger] is_receiver(params@[j]),
        decreases params@.len() - i,
    {
        if let ParamItem::Receiver = &params[i] {
            proof {
                assert(is_receiver(params@[i as int]));
            }
            return true;
        }
        i += 1;
    }
    false
}

/// Whether a required parameter follows an optional one.
pub fn required_after_optional(params: &Vec<ParamItem>) -> (r: bool)
    ensures
        r == has_required_after_optional(params@),
{
    let ghost ps = params@;
    let mut first_optional: Option<usize> = None;
    let mut i: usize = 0;
    while i < params.len()
        invariant
            i <= ps.len(),
            ps == params@,
            match first_optional {
                Some(f) => f < i && has_default(ps[f as int]),
                None => forall|j: int| 0 <= j < i ==> !#[trigger] has_default(ps[j]),
            },
            forall|a: int, b: int| 0 <= a < b < i ==> !(#[trigger] has_default(ps[a]) && #[trigger] is_required(ps[b])),
        decreases ps.len() - i,
    {
        match &params[i] {
            ParamItem::Typed { default: Some(_), .. } => {
                if first_optional.is_none() {
                    first_optional = Some(i);
                }
            },
            ParamItem::Typed { default: None, .. } => {
                if let Some(f) = first_optional {
                    proof {
                        assert(has_default(ps[f as int]) && is_required(ps[i as int]));
                    }
                    return true;
                }
            },
            ParamItem::Receiver => {},
        }
        i += 1;
    }
    false
}

/// Whether a path of more than one segment lacks the leading `crate`.
pub fn path_not_starting_with_crate(anchored: bool, segments: &Vec<String>) -> (r: bool)
    ensures
        r == (!anchored && segments@.len() > 1),
{
    !anchored && segments.len() > 1
}

/// The position of the first rejected parameter, if any.
pub fn offending_param(params: &Vec<ParamItem>) -> (r: Option<usize>)
    ensures
        match r {
            Some(i) => first_offending(params@, i as int),
            None => forall|i: int| 0 <= i < params@.len() ==> !#[trigger] offends_at(params@, i),
        },
{
    let ghost ps = params@;
    let mut seen_optional = false;
    let mut i: usize = 0;
    while i < params.len()
        invariant
            ps == params@,
            i <= ps.len(),
            seen_optional == optional_before(ps, i as int),
            forall|j: int| 0 <= j < i ==> !#[trigger] offends_at(ps, j),
        decreases ps.len() - i,
    {
        let offends = match &params[i] {
            ParamItem::Receiver => true,
            ParamItem::Typed { default: Some(_), .. } => false,
            ParamItem::Typed { default: None, .. } => seen_optional,
        };
        if offends {
            return Some(i);
        }
        proof {
            assert(!offends_at(ps, i as int));
        }
        let is_optional = match &params[i] {
            ParamItem::Typed { default: Some(_), .. } => true,
            _ => false,
        };
        proof {
            if is_optional {
                assert(has_default(ps[i as int]));
                assert(optional_before(ps, i + 1));
            } else {
                assert(!has_default(ps[i as int]));
                if optional_before(ps, i + 1) {
                    let j = choose|j: int| 0 <= j < i + 1 && #[trigger] has_default(ps[j]);
                    assert(j < i);
                    assert(optional_before(ps, i as int));
                }
            }
        }
        seen_optional = seen_optional || is_optional;
        i += 1;
    }
    None
}

impl Args {
    /// Checks the parameter list and splits it into required and optional
    /// parameters.
    pub fn parse(params: &Vec<ParamItem>) -> (r: Result<Args, SignatureError>)
        ensures
            match r {
                Ok(a) => params_error(params@) is None && a.lists(params@),
                Err(e) => params_error(params@) == Some(e),
            },
    {
        if let Some(i) = offending_param(params) {
            proof {
                lemma_first_offending_unique(params@, i as int);
            }
            return match &params[i] {
                ParamItem::Receiver => Err(SignatureError::ReceiverNotSupported),
                ParamItem::Typed { .. } => Err(SignatureError::RequiredAfterOptional),
            };
        }
        let ghost ps = params@;
        proof {
            lemma_no_offence(ps);
            if exists|i: int| first_offending(ps, i) {
                let i = choose|i: int| first_offending(ps, i);
                assert(!offends_at(ps, i));
            }
        }
        let mut required: Vec<String> = Vec::new();
        let mut optional: Vec<OptionalParam> = Vec::new();
        let mut i: usize = 0;
        while i < params.len()
            invariant
                ps == params@,
                !has_receiver(ps),
                !has_required_after_optional(ps),
                i <= ps.len(),
                required@.len() + optional@.len() == i,
                optional@.len() > 0 ==> has_default(ps[required@.len() as int]),
                lists_prefix(required@, optional@, ps),
            decreases ps.len() - i,
        {
            proof {
                assert(!is_receiver(ps[i as int]));
            }
            let ghost r0 = required@;
            let ghost o0 = optional@;
            match &params[i] {
                ParamItem::Typed { name, default: Some(d) } => {
                    optional.push(OptionalParam { name: name.clone(), default: d.clone() });
                    proof {
                        assert forall|j: int| 0 <= j < optional@.len() implies (#[trigger] optional@[j]).name@
                            == param_name(ps[required@.len() + j]) && optional@[j].default@ == default_text(
                            ps[required@.len() + j],
                        ) by {
                            if j < o0.len() {
                                assert(optional@[j] == o0[j]);
                            }
                        }
                        assert(required@ == r0);
                    }
                },
                ParamItem::Typed { name, default: None } => {
                    proof {
                        if optional@.len() > 0 {
                            assert(has_default(ps[required@.len() as int]) && is_required(ps[i as int]));
                            assert(has_required_after_optional(ps));
                        }
                    }
                    required.push(name.clone());
                    proof {
                        assert forall|j: int| 0 <= j < required@.len() implies (#[trigger] required@[j])@
                            == param_name(ps[j]) by {
                            if j < r0.len() {
                                assert(required@[j] == r0[j]);
                            }
                        }
                        assert(optional@ =~= Seq::<OptionalParam>::empty());
                    }
                },
                ParamItem::Receiver => {
                    proof {
                        assert(is_receiver(ps[i as int]));
                    }
                },
            }
            i += 1;
        }
        let a = Args { required, optional };
        Ok(a)
    }
}

/// A copy of the first `len` strings of `v`.
fn copy_strings(v: &Vec<String>, len: usize) -> (r: Vec<String>)
    requires
        len <= v@.len(),
    ensures
        r@ == v@.subrange(0, len as int),
{
    let mut r: Vec<String> = Vec::new();
    let mut i: usize = 0;
    while i < len
        invariant
            len <= v@.len(),
            i <= len,
            r@ == v@.subrange(0, i as int),
        decreases len - i,
    {
        r.push(v[i].clone());
        i += 1;
        proof {
            assert(r@ =~= v@.subrange(0, i as int));
        }
    }
    r
}

impl Signature {
    /// The parameter counts fit the machine's index type.
    pub open spec fn wf(&self) -> bool {
        self.args.required@.len() + self.args.optional@.len() <= usize::MAX
    }

    /// Checks a declaration: first its path, given as `segments` after an
    /// optional leading `crate::` (`anchored`), then its parameters.
    pub fn parse(export: bool, anchored: bool, segments: &Vec<String>, params: &Vec<ParamItem>) -> (r:
        Result<Signature, SignatureError>)
        requires
            segments@.len() >= 1,
        ensures
            match r {
                Ok(sig) => {
                    &&& !(!anchored && segments@.len() > 1)
                    &&& params_error(params@) is None
                    &&& sig.wf()
                    &&& sig.args.lists(params@)
                    &&& sig.export == export
                    &&& sig.name == segments@.last()
                    &&& (sig.path is Some <==> anchored)
                    &&& sig.path matches Some(p) ==> p@ == segments@.drop_last()
                },
                Err(e) => if !anchored && segments@.len() > 1 {
                    e == SignatureError::PathMustStartAtRoot
                } else {
                    params_error(params@) == Some(e)
                },
            },
    {
        if path_not_starting_with_crate(anchored, segments) {
            return Err(SignatureError::PathMustStartAtRoot);
        }
        let args = match Args::parse(params) {
            Ok(a) => a,
            Err(e) => {
                return Err(e);
            },
        };
        let last = segments.len() - 1;
        let name = segments[last].clone();
        let path = if anchored {
            Some(copy_strings(segments, last))
        } else {
            None
        };
        proof {
            assert(segments@.subrange(0, last as int) =~= segments@.drop_last());
            assert(params@.len() == params.len());
        }
        Ok(Signature { export, path, name, args })
    }

    /// The name of the renamed function, which the dispatcher's name does not
    /// collide with.
    pub fn renamed(&self) -> (r: String)
        ensures
            r@ == self.name@.push('_'),
    {
        let mut r = self.name.clone();
        r.append("_");
        proof {
            reveal_strlit("_");
            assert(r@ =~= self.name@.push('_'));
        }
        r
    }

    /// The path by which the dispatcher calls the renamed function: the module
    /// path from the crate root where one was given, then the renamed name.
    pub fn target(&self) -> (r: Vec<String>)
        ensures
            r@.len() > 0,
            r@.last()@ == self.name@.push('_'),
            match self.path {
                Some(p) => r@.drop_last() == p@,
                None => r@.len() == 1,
            },
    {
        let mut r: Vec<String> = match &self.path {
            Some(p) => copy_strings(p, p.len()),
            None => Vec::new(),
        };
        let ghost before = r@;
        r.push(self.renamed());
        proof {
            assert(r@.drop_last() =~= before);
            if self.path is Some {
                let p = self.path->0;
                assert(p@.subrange(0, p@.len() as int) =~= p@);
            }
        }
        r
    }

    /// The dispatch table of this signature.
    pub fn dispatch_table(&self) -> (t: DispatchTable)
        requires
            self.wf(),
        ensures
            t.wf(),
            t.required == self.args.required@.len(),
            t.optional == self.args.optional@.len(),
    {
        generate_macro(self.args.required.len(), self.args.optional.len())
    }
}

} // verus!
