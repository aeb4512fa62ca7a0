//! Expansion of one call site through the dispatch table: the positional
//! arguments and the `name = value` pairs that a caller wrote become the
//! argument list of the renamed function, in declaration order.

use vstd::prelude::*;
use crate::dispatch::{forwarded, DispatchTable, Slot};
use crate::signature::{OptionalParam, Signature};

verus! {

/// `i` is the first optional parameter called `name`.
pub open spec fn first_named(opt: Seq<OptionalParam>, name: Seq<char>, i: int) -> bool {
    &&& 0 <= i < opt.len()
    &&& opt[i].name@ == name
    &&& forall|i2: int| 0 <= i2 < i ==> (#[trigger] opt[i2]).name@ != name
}

/// Some optional parameter is called `name`.
pub open spec fn has_name(opt: Seq<OptionalParam>, name: Seq<char>) -> bool {
    exists|i: int| 0 <= i < opt.len() && (#[trigger] opt[i]).name@ == name
}

/// Every name of the call is the name of some optional parameter.
pub open spec fn names_known(opt: Seq<OptionalParam>, named: Seq<(String, String)>) -> bool {
    forall|w: int| 0 <= w < named.len() ==> has_name(opt, (#[trigger] named[w]).0@)
}

/// `idx` gives, for each name of the call, the optional parameter it names.
pub open spec fn names_resolve(opt: Seq<OptionalParam>, named: Seq<(String, String)>, idx: Seq<usize>) -> bool {
    &&& idx.len() == named.len()
    &&& forall|w: int| 0 <= w < idx.len() ==> first_named(opt, named[w].0@, #[trigger] idx[w] as int)
}

/// The text that fills a slot of the forwarded call.
pub open spec fn slot_text(
    slot: Slot,
    positional: Seq<String>,
    named: Seq<(String, String)>,
    idx: Seq<usize>,
    opt: Seq<OptionalParam>,
) -> Seq<char> {
    match slot {
        Slot::Positional(p) => positional[p as int]@,
        Slot::Named(i) => named[choose|w: int| 0 <= w < idx.len() && idx[w] == i].1@,
        Slot::Default(i) => opt[i as int].default@,
    }
}

/// The first optional parameter called `name`, if any.
fn find_optional(opt: &Vec<OptionalParam>, name: &String) -> (r: Option<usize>)
    ensures
        match r {
            Some(i) => first_named(opt@, name@, i as int),
            None => forall|i: int| 0 <= i < opt@.len() ==> (#[trigger] opt@[i]).name@ != name@,
        },
{
    let mut i: usize = 0;
    while i < opt.len()
        invariant
            i <= opt@.len(),
            forall|i2: int| 0 <= i2 < i ==> (#[trigger] opt@[i2]).name@ != name@,
        decreases opt@.len() - i,
    {
        if opt[i].name == *name {
            return Some(i);
        }
        i += 1;
    }
    None
}

/// The position in `idx` of the index `i`.
fn position_of(idx: &Vec<usize>, i: usize) -> (w: usize)
    requires
        idx@.contains(i),
    ensures
        w < idx@.len(),
        idx@[w as int] == i,
{
    let mut w: usize = 0;
    while w < idx.len()
        invariant
            w <= idx@.len(),
            idx@.contains(i),
            forall|w2: int| 0 <= w2 < w ==> idx@[w2] != i,
        decreases idx@.len() - w,
    {
        if idx[w] == i {
            return w;
        }
        w += 1;
    }
    proof {
        let w2 = choose|w2: int| 0 <= w2 < idx@.len() && idx@[w2] == i;
        assert(idx@[w2] == i);
    }
    0
}

impl Signature {
    /// Expands a call with `positional` arguments by position followed by
    /// the `named` pairs: the argument list of the renamed function, or
    /// `None` where a name is unknown or no rule accepts the call.
    pub fn call(
        &self,
        table: &DispatchTable,
        positional: &Vec<String>,
        named: &Vec<(String, String)>,
    ) -> (r: Option<Vec<String>>)
        requires
            table.wf(),
            table.required == self.args.required@.len(),
            table.optional == self.args.optional@.len(),
        ensures
            r is Some <==> names_known(self.args.optional@, named@) && forall|idx: Seq<usize>|
                #[trigger] names_resolve(self.args.optional@, named@, idx) ==> table.accepted(
                    positional@.len() as nat,
                    idx,
                ),
            r matches Some(args) ==> forall|idx: Seq<usize>|
                #[trigger] names_resolve(self.args.optional@, named@, idx) ==> {
                    let fwd = forwarded(
                        table.required as nat,
                        table.optional as nat,
                        (positional@.len() - table.required) as nat,
                        idx,
                    );
                    &&& args@.len() == fwd.len()
                    &&& forall|p: int|
                        0 <= p < fwd.len() ==> (#[trigger] args@[p])@ == slot_text(
                            fwd[p],
                            positional@,
                            named@,
                            idx,
                            self.args.optional@,
                        )
                },
    {
        let opt = &self.args.optional;
        let mut idx: Vec<usize> = Vec::new();
        let mut w: usize = 0;
        while w < named.len()
            invariant
                opt@ == self.args.optional@,
                w <= named@.len(),
                idx@.len() == w,
                forall|w2: int| 0 <= w2 < w ==> first_named(opt@, named@[w2].0@, #[trigger] idx@[w2] as int),
            decreases named@.len() - w,
        {
            match find_optional(opt, &named[w].0) {
                Some(i) => {
                    idx.push(i);
                },
                None => {
                    proof {
                        assert(!names_known(opt@, named@)) by {
                            let w0 = w as int;
                            assert(0 <= w0 < named@.len());
                            if names_known(opt@, named@) {
                                assert(has_name(opt@, named@[w0].0@));
                            }
                        }
                    }
                    return None;
                },
            }
            w += 1;
        }
        proof {
            assert(names_resolve(opt@, named@, idx@));
            assert(names_known(opt@, named@)) by {
                assert forall|w2: int| 0 <= w2 < named@.len() implies has_name(opt@, (#[trigger] named@[w2]).0@) by {
                    assert(first_named(opt@, named@[w2].0@, idx@[w2] as int));
                    assert(opt@[idx@[w2] as int].name@ == named@[w2].0@);
                }
            }
            assert forall|idx2: Seq<usize>| #[trigger] names_resolve(opt@, named@, idx2) implies idx2
                == idx@ by {
                assert forall|w2: int| 0 <= w2 < idx2.len() implies idx2[w2] == idx@[w2] by {
                    assert(first_named(opt@, named@[w2].0@, idx2[w2] as int));
                    assert(first_named(opt@, named@[w2].0@, idx@[w2] as int));
                    if idx2[w2] < idx@[w2] {
                        assert(opt@[idx2[w2] as int].name@ != named@[w2].0@);
                    }
                    if idx@[w2] < idx2[w2] {
                        assert(opt@[idx@[w2] as int].name@ != named@[w2].0@);
                    }
                }
                assert(idx2 =~= idx@);
            }
        }
        let j = match table.resolve(positional.len(), &idx) {
            Some(j) => j,
            None => {
                proof {
                    assert(names_resolve(self.args.optional@, named@, idx@));
                    assert(!table.accepted(positional@.len() as nat, idx@));
                }
                return None;
            },
        };
        proof {
            assert(table.accepted(positional@.len() as nat, idx@));
        }
        let rule = &table.rules[j];
        proof {
            assert(rule.well_formed(table.required as nat, table.optional as nat));
        }
        let ghost fwd = rule.args@;
        let mut args: Vec<String> = Vec::new();
        let mut p: usize = 0;
        while p < rule.args.len()
            invariant
                table.wf(),
                rule.well_formed(table.required as nat, table.optional as nat),
                rule.positional == positional@.len(),
                rule.named@ == idx@,
                idx@.len() == named@.len(),
                fwd == rule.args@,
                table.optional == opt@.len(),
                p <= fwd.len(),
                args@.len() == p,
                forall|p2: int|
                    0 <= p2 < p ==> (#[trigger] args@[p2])@ == slot_text(fwd[p2], positional@, named@, idx@, opt@),
            decreases fwd.len() - p,
        {
            let text = match rule.args[p] {
                Slot::Positional(q) => positional[q].clone(),
                Slot::Named(i) => {
                    let w = position_of(&idx, i);
                    proof {
                        assert(idx@.no_duplicates());
                        let c = choose|c: int| 0 <= c < idx@.len() && idx@[c] == i;
                        assert(c == w);
                    }
                    named[w].1.clone()
                },
                Slot::Default(i) => opt[i].default.clone(),
            };
            args.push(text);
            p += 1;
        }
        Some(args)
    }
}

} // verus!
