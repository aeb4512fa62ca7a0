//! Enumeration of the dispatch rules of a signature.
//!
//! With `R` required and `n` optional parameters, a rule is given by `k`, the
//! number of optional parameters supplied by position (`0 <= k <= n`), and by
//! the sequence of optional indices, all at least `k`, that the caller names,
//! in the order in which they are named. The table holds one rule for each such
//! pair, and none twice. Its size is `O(n! * 2^n)`: named arguments may come in
//! any order, which is only reasonable for the small `n` of real declarations.

use vstd::prelude::*;
use vstd::set_lib::{lemma_int_range, lemma_len_subset, set_int_range};

verus! {

/// Where one argument of the forwarded call comes from.
#[derive(Clone, Copy, Debug, PartialEq, Eq, Structural)]
pub enum Slot {
    /// The caller's positional argument at this position.
    Positional(usize),
    /// The caller's argument named after the optional parameter of this index.
    Named(usize),
    /// The default expression of the optional parameter of this index.
    Default(usize),
}

/// One accepted call shape and the call that it expands to.
#[derive(Clone, Debug)]
pub struct DispatchRule {
    /// How many optional parameters are supplied by position.
    pub offset: usize,
    /// How many arguments the caller passes by position: the required ones
    /// and the first `offset` optional ones.
    pub positional: usize,
    /// The optional indices that the caller names, in call order.
    pub named: Vec<usize>,
    /// The arguments of the forwarded call, in declaration order.
    pub args: Vec<Slot>,
}

/// `named` holds distinct optional indices, each in `k..n`.
pub open spec fn valid_named(n: nat, k: nat, named: Seq<usize>) -> bool {
    &&& named.no_duplicates()
    &&& forall|i: int| 0 <= i < named.len() ==> k <= #[trigger] named[i] < n
}

/// The pair `(k, named)` describes an accepted call shape.
pub open spec fn valid_shape(n: nat, k: nat, named: Seq<usize>) -> bool {
    k <= n && valid_named(n, k, named)
}

/// The source of argument `p` of the forwarded call.
pub open spec fn forwarded_slot(required: nat, k: nat, named: Seq<usize>, p: nat) -> Slot {
    if p < required + k {
        Slot::Positional(p as usize)
    } else if named.contains((p - required) as usize) {
        Slot::Named((p - required) as usize)
    } else {
        Slot::Default((p - required) as usize)
    }
}

/// The whole forwarded argument list: positions first, then each optional
/// slot from its name or from its default.
pub open spec fn forwarded(required: nat, n: nat, k: nat, named: Seq<usize>) -> Seq<Slot> {
    Seq::new(required + n, |p: int| forwarded_slot(required, k, named, p as nat))
}

/// `flags[i]` tells whether optional index `k + i` is among `named`.
pub open spec fn flags_match(n: nat, k: nat, named: Seq<usize>, flags: Seq<bool>) -> bool {
    &&& k <= n
    &&& valid_named(n, k, named)
    &&& flags.len() == n - k
    &&& forall|i: int| 0 <= i < flags.len() ==> #[trigger] flags[i] == named.contains((k + i) as usize)
}

impl DispatchRule {
    /// The rule belongs to a signature with `required` and `n` optional
    /// parameters, and forwards exactly what its shape says.
    pub open spec fn well_formed(&self, required: nat, n: nat) -> bool {
        &&& valid_shape(n, self.offset as nat, self.named@)
        &&& self.positional == required + self.offset
        &&& self.args@ == forwarded(required, n, self.offset as nat, self.named@)
    }

    /// The rule accepts a call with `positional` arguments by position,
    /// followed by the optional indices `named` by name.
    pub open spec fn accepts(&self, positional: nat, named: Seq<usize>) -> bool {
        self.positional == positional && self.named@ == named
    }
}

/// Forwarded slots for the first `count` positional arguments.
fn unnamed_args(count: usize) -> (r: Vec<Slot>)
    ensures
        r@.len() == count,
        forall|p: int| 0 <= p < count ==> #[trigger] r@[p] == Slot::Positional(p as usize),
{
    let mut r: Vec<Slot> = Vec::new();
    let mut i: usize = 0;
    while i < count
        invariant
            i <= count,
            r@.len() == i,
            forall|p: int| 0 <= p < i ==> #[trigger] r@[p] == Slot::Positional(p as usize),
        decreases count - i,
    {
        r.push(Slot::Positional(i));
        i += 1;
    }
    r
}

/// Forwarded slots for the optional parameters from `offset` on: a named one
/// where its flag is set, its default otherwise.
fn named_args(offset: usize, func_index: &Vec<bool>) -> (r: Vec<Slot>)
    requires
        offset + func_index@.len() <= usize::MAX,
    ensures
        r@.len() == func_index@.len(),
        forall|i: int|
            0 <= i < func_index@.len() ==> #[trigger] r@[i] == if func_index@[i] {
                Slot::Named((offset + i) as usize)
            } else {
                Slot::Default((offset + i) as usize)
            },
{
    let mut r: Vec<Slot> = Vec::new();
    let mut i: usize = 0;
    while i < func_index.len()
        invariant
            i <= func_index@.len(),
            offset + func_index@.len() <= usize::MAX,
            r@.len() == i,
            forall|j: int|
                0 <= j < i ==> #[trigger] r@[j] == if func_index@[j] {
                    Slot::Named((offset + j) as usize)
                } else {
                    Slot::Default((offset + j) as usize)
                },
        decreases func_index@.len() - i,
    {
        if func_index[i] {
            r.push(Slot::Named(offset + i));
        } else {
            r.push(Slot::Default(offset + i));
        }
        i += 1;
    }
    r
}

/// A copy of a sequence of indices.
fn copy_indices(v: &Vec<usize>) -> (r: Vec<usize>)
    ensures
        r@ == v@,
{
    let mut r: Vec<usize> = Vec::new();
    let mut i: usize = 0;
    while i < v.len()
        invariant
            i <= v@.len(),
            r@ == v@.subrange(0, i as int),
        decreases v@.len() - i,
    {
        r.push(v[i]);
        i += 1;
        proof {
            assert(r@ =~= v@.subrange(0, i as int));
        }
    }
    proof {
        assert(r@ =~= v@);
    }
    r
}

/// The rule for `offset` optional arguments by position and the optional
/// indices `macro_index` by name, whose membership `func_index` records.
pub fn generate(
    required: usize,
    n: usize,
    offset: usize,
    macro_index: &Vec<usize>,
    func_index: &Vec<bool>,
) -> (r: DispatchRule)
    requires
        required + n <= usize::MAX,
        flags_match(n as nat, offset as nat, macro_index@, func_index@),
    ensures
        r.well_formed(required as nat, n as nat),
        r.offset == offset,
        r.named@ == macro_index@,
{
    let positional = required + offset;
    let mut args = unnamed_args(positional);
    let mut rest = named_args(offset, func_index);
    args.append(&mut rest);
    let named = copy_indices(macro_index);
    proof {
        let fwd = forwarded(required as nat, n as nat, offset as nat, macro_index@);
        assert forall|p: int| 0 <= p < fwd.len() implies #[trigger] args@[p] == fwd[p] by {
            if p >= positional {
                let i = p - positional;
                assert(func_index@[i] == macro_index@.contains((offset + i) as usize));
            }
        }
        assert(args@ =~= fwd);
    }
    DispatchRule { offset, positional, named, args }
}

/// A sequence of distinct indices in `k..n` that misses `x`, itself in that
/// range, is shorter than `n - k`.
proof fn lemma_named_room(n: nat, k: nat, named: Seq<usize>, x: usize)
    requires
        valid_named(n, k, named),
        k <= x < n,
        !named.contains(x),
    ensures
        named.len() < n - k,
{
    let ints = named.map_values(|v: usize| v as int);
    assert forall|a: int, b: int| 0 <= a < b < ints.len() implies ints[a] != ints[b] by {
        assert(named[a] != named[b]);
    }
    assert(ints.no_duplicates());
    ints.unique_seq_to_set();
    let range = set_int_range(k as int, n as int).remove(x as int);
    lemma_int_range(k as int, n as int);
    assert forall|v: int| ints.to_set().contains(v) implies range.contains(v) by {
        let i = choose|i: int| 0 <= i < ints.len() && ints[i] == v;
        assert(named[i] != x) by {
            if named[i] == x {
                assert(named.contains(x));
            }
        }
    }
    lemma_len_subset(ints.to_set(), range);
}

/// `s` comes before `t` in depth-first order: `s` is a proper prefix of `t`,
/// or at the first place where they differ `s` holds the smaller index.
pub open spec fn lex_lt(s: Seq<usize>, t: Seq<usize>) -> bool {
    ||| (s.len() < t.len() && s.is_prefix_of(t))
    ||| exists|w: int|
        0 <= w < s.len() && w < t.len() && s.subrange(0, w) == t.subrange(0, w) && #[trigger] s[w] < t[w]
}

/// `s` is an accepted shape with `k` positional optional arguments whose
/// named part begins with `prefix`.
pub open spec fn extends_shape(n: nat, k: nat, prefix: Seq<usize>, s: Seq<usize>) -> bool {
    valid_shape(n, k, s) && prefix.is_prefix_of(s)
}

/// Appends to `table` the rules with `offset` optional arguments by position
/// whose named part begins with `macro_index`, each exactly once, and leaves
/// `macro_index` and `func_index` as it found them.
fn generate_recursive(
    required: usize,
    n: usize,
    offset: usize,
    macro_index: &mut Vec<usize>,
    func_index: &mut Vec<bool>,
    table: &mut Vec<DispatchRule>,
)
    requires
        required + n <= usize::MAX,
        flags_match(n as nat, offset as nat, old(macro_index)@, old(func_index)@),
    ensures
        final(macro_index)@ == old(macro_index)@,
        final(func_index)@ == old(func_index)@,
        old(table)@.len() < final(table)@.len(),
        forall|j: int| 0 <= j < old(table)@.len() ==> final(table)@[j] == old(table)@[j],
        final(table)@[old(table)@.len() as int].named@ == old(macro_index)@,
        forall|a: int, b: int|
            old(table)@.len() <= a < b < final(table)@.len() ==> lex_lt(
                final(table)@[a].named@,
                final(table)@[b].named@,
            ),
        forall|j: int|
            old(table)@.len() <= j < final(table)@.len() ==> {
                let r = #[trigger] final(table)@[j];
                &&& r.well_formed(required as nat, n as nat)
                &&& r.offset == offset
                &&& old(macro_index)@.is_prefix_of(r.named@)
            },
        forall|s: Seq<usize>|
            #[trigger] extends_shape(n as nat, offset as nat, old(macro_index)@, s) ==> exists|j: int|
                old(table)@.len() <= j < final(table)@.len() && final(table)@[j].named@ == s,
        forall|a: int, b: int|
            old(table)@.len() <= a < b < final(table)@.len() ==> final(table)@[a].named@
                != final(table)@[b].named@,
    decreases n - offset - old(macro_index)@.len(),
{
    let ghost t0 = table@;
    let ghost m0 = macro_index@;
    let ghost f0 = func_index@;
    let rule = generate(required, n, offset, macro_index, func_index);
    table.push(rule);
    proof {
        assert(m0.is_prefix_of(m0)) by {
            assert(m0 =~= m0.subrange(0, m0.len() as int));
        }
        assert forall|s: Seq<usize>|
            #[trigger] extends_shape(n as nat, offset as nat, m0, s) && (s.len() == m0.len()
                || s[m0.len() as int] < offset) implies exists|j: int|
            t0.len() <= j < table@.len() && table@[j].named@ == s by {
            if s.len() == m0.len() {
                assert(s =~= m0);
                assert(table@[t0.len() as int].named@ == s);
            } else {
                assert(offset <= s[m0.len() as int]);
            }
        }
    }
    let len = func_index.len();
    let mut i: usize = 0;
    while i < len
        invariant
            required + n <= usize::MAX,
            flags_match(n as nat, offset as nat, m0, f0),
            old(macro_index)@ == m0,
            macro_index@ == m0,
            func_index@ == f0,
            len == f0.len(),
            i <= len,
            t0.len() < table@.len(),
            table@[t0.len() as int].named@ == m0,
            forall|j: int| 0 <= j < t0.len() ==> table@[j] == t0[j],
            forall|j: int|
                t0.len() <= j < table@.len() ==> {
                    let r = #[trigger] table@[j];
                    &&& r.well_formed(required as nat, n as nat)
                    &&& r.offset == offset
                    &&& m0.is_prefix_of(r.named@)
                    &&& (j == t0.len() || (m0.len() < r.named@.len() && r.named@[m0.len() as int]
                        < offset + i))
                },
            forall|s: Seq<usize>|
                #[trigger] extends_shape(n as nat, offset as nat, m0, s) && (s.len() == m0.len()
                    || s[m0.len() as int] < offset + i) ==> exists|j: int|
                    t0.len() <= j < table@.len() && table@[j].named@ == s,
            forall|a: int, b: int|
                t0.len() <= a < b < table@.len() ==> table@[a].named@ != table@[b].named@,
            forall|a: int, b: int|
                t0.len() <= a < b < table@.len() ==> lex_lt(table@[a].named@, table@[b].named@),
        decreases len - i,
    {
        if !func_index[i] {
            let x = offset + i;
            let ghost t1 = table@;
            proof {
                lemma_named_room(n as nat, offset as nat, m0, x);
            }
            func_index[i] = true;
            macro_index.push(x);
            proof {
                let m1 = macro_index@;
                assert(m1.no_duplicates()) by {
                    assert forall|a: int, b: int| 0 <= a < b < m1.len() implies m1[a] != m1[b] by {
                        if b == m0.len() {
                            assert(m0.contains(m0[a]));
                        }
                    }
                }
                assert forall|j: int| 0 <= j < func_index@.len() implies #[trigger] func_index@[j]
                    == m1.contains((offset + j) as usize) by {
                    if j != i {
                        if m1.contains((offset + j) as usize) {
                            let w = choose|w: int| 0 <= w < m1.len() && m1[w] == (offset + j) as usize;
                            assert(w < m0.len());
                            assert(m0[w] == m1[w]);
                        }
                        if m0.contains((offset + j) as usize) {
                            let w = choose|w: int| 0 <= w < m0.len() && m0[w] == (offset + j) as usize;
                            assert(m1[w] == m0[w]);
                        }
                    } else {
                        assert(m1[m0.len() as int] == x);
                    }
                }
            }
            assert(0 <= n - offset - macro_index@.len() < n - offset - m0.len());
            generate_recursive(required, n, offset, macro_index, func_index, table);
            let ghost t2 = table@;
            let ghost m1 = m0.push(x);
            macro_index.pop();
            func_index[i] = false;
            proof {
                assert(macro_index@ =~= m0);
                assert(func_index@ =~= f0);
                assert forall|j: int| t1.len() <= j < t2.len() implies #[trigger] t2[j].named@.len()
                    > m0.len() && t2[j].named@[m0.len() as int] == x by {
                    assert(m1.is_prefix_of(t2[j].named@));
                    assert(t2[j].named@[m0.len() as int] == m1[m0.len() as int]);
                }
                assert forall|j: int| t0.len() <= j < t2.len() implies {
                    let r = #[trigger] t2[j];
                    m0.is_prefix_of(r.named@)
                } by {
                    if j >= t1.len() {
                        let r = t2[j];
                        assert(m1.is_prefix_of(r.named@));
                        assert(m0 =~= r.named@.subrange(0, m0.len() as int)) by {
                            assert forall|w: int| 0 <= w < m0.len() implies m0[w] == r.named@[w] by {
                                assert(m1[w] == r.named@[w]);
                            }
                        }
                    }
                }
                assert forall|s: Seq<usize>|
                    #[trigger] extends_shape(n as nat, offset as nat, m0, s) && (s.len() == m0.len()
                        || s[m0.len() as int] < offset + i + 1) implies exists|j: int|
                    t0.len() <= j < t2.len() && t2[j].named@ == s by {
                    if s.len() != m0.len() && s[m0.len() as int] == x {
                        assert(m1 =~= s.subrange(0, m1.len() as int));
                        assert(extends_shape(n as nat, offset as nat, m1, s));
                    }
                }
                assert forall|a: int, b: int| t0.len() <= a < b < t2.len() implies lex_lt(
                    t2[a].named@,
                    t2[b].named@,
                ) by {
                    if a < t1.len() && b >= t1.len() {
                        let sa = t2[a].named@;
                        let sb = t2[b].named@;
                        assert(t2[a] == t1[a]);
                        assert(m0.is_prefix_of(sb));
                        assert(m0.is_prefix_of(sa));
                        assert(sb.len() > m0.len() && sb[m0.len() as int] == x);
                        if a == t0.len() {
                            assert(sa == m0);
                            assert(sa.is_prefix_of(sb));
                        } else {
                            let w = m0.len() as int;
                            assert(sa.subrange(0, w) =~= m0);
                            assert(sb.subrange(0, w) =~= m0);
                            assert(sa[w] < sb[w]);
                        }
                    }
                }
            }
        } else {
            proof {
                assert forall|s: Seq<usize>|
                    #[trigger] extends_shape(n as nat, offset as nat, m0, s) && s.len() != m0.len()
                        implies s[m0.len() as int] != offset + i by {
                    assert(m0.contains((offset + i) as usize));
                    let w = choose|w: int| 0 <= w < m0.len() && m0[w] == (offset + i) as usize;
                    assert(s[w] == m0[w]);
                }
            }
        }
        i += 1;
    }
    proof {
        assert forall|s: Seq<usize>| #[trigger] extends_shape(n as nat, offset as nat, m0, s)
            implies exists|j: int| t0.len() <= j < table@.len() && table@[j].named@ == s by {
            if s.len() == m0.len() {
                assert(s =~= m0);
            } else {
                assert(s[m0.len() as int] < n);
            }
        }
    }
}

/// Every rule is well formed, every accepted shape has a rule, and no two
/// rules accept the same call.
pub open spec fn is_dispatch_table(required: nat, n: nat, rules: Seq<DispatchRule>) -> bool {
    &&& forall|j: int| 0 <= j < rules.len() ==> #[trigger] rules[j].well_formed(required, n)
    &&& forall|k: nat, s: Seq<usize>|
        #[trigger] valid_shape(n, k, s) ==> exists|j: int|
            0 <= j < rules.len() && rules[j].offset == k && rules[j].named@ == s
    &&& forall|a: int, b: int|
        0 <= a < b < rules.len() ==> !(rules[a].positional == rules[b].positional
            && rules[a].named@ == rules[b].named@)
}

/// Rules come by increasing count of optional arguments by position, and
/// within one count in depth-first order of their names, so that the rule
/// naming nothing comes first.
pub open spec fn in_dispatch_order(rules: Seq<DispatchRule>) -> bool {
    forall|a: int, b: int|
        0 <= a < b < rules.len() ==> #[trigger] rules[a].offset < #[trigger] rules[b].offset || (
        rules[a].offset == rules[b].offset && lex_lt(rules[a].named@, rules[b].named@))
}

/// The complete dispatch table of a signature with `required` required and
/// `optional` optional parameters.
#[derive(Clone, Debug)]
pub struct DispatchTable {
    pub required: usize,
    pub optional: usize,
    pub rules: Vec<DispatchRule>,
}

impl DispatchTable {
    pub open spec fn wf(&self) -> bool {
        &&& self.required + self.optional <= usize::MAX
        &&& is_dispatch_table(self.required as nat, self.optional as nat, self.rules@)
        &&& in_dispatch_order(self.rules@)
    }
}

/// `len` flags, none of them set.
fn no_flags(len: usize) -> (r: Vec<bool>)
    ensures
        r@.len() == len,
        forall|i: int| 0 <= i < len ==> !#[trigger] r@[i],
{
    let mut r: Vec<bool> = Vec::new();
    let mut i: usize = 0;
    while i < len
        invariant
            i <= len,
            r@.len() == i,
            forall|j: int| 0 <= j < i ==> !#[trigger] r@[j],
        decreases len - i,
    {
        r.push(false);
        i += 1;
    }
    r
}

/// Builds the dispatch table: for each count `k` of optional arguments by
/// position, from `0` to `optional`, every order of every set of names.
pub fn generate_macro(required: usize, optional: usize) -> (t: DispatchTable)
    requires
        required + optional <= usize::MAX,
    ensures
        t.wf(),
        t.required == required,
        t.optional == optional,
        t.rules@.len() > 0,
        t.rules@[0].offset == 0,
        t.rules@[0].named@.len() == 0,
        forall|a: int, b: int|
            0 <= a < b < t.rules@.len() ==> t.rules@[a].offset <= t.rules@[b].offset,
        forall|a: int, b: int|
            0 <= a < b < t.rules@.len() && t.rules@[a].offset == t.rules@[b].offset
                ==> t.rules@[b].named@.len() > 0,
{
    let n = optional;
    let mut rules: Vec<DispatchRule> = Vec::new();
    let mut k: usize = 0;
    let mut done = false;
    while !done
        invariant
            required + n <= usize::MAX,
            k <= n,
            forall|j: int| 0 <= j < rules@.len() ==> #[trigger] rules@[j].well_formed(required as nat, n as nat),
            forall|j: int| 0 <= j < rules@.len() ==> (#[trigger] rules@[j]).offset < k || (done && rules@[j].offset == k),
            forall|k2: nat, s: Seq<usize>|
                #[trigger] valid_shape(n as nat, k2, s) && (k2 < k || (done && k2 == k)) ==> exists|j: int|
                    0 <= j < rules@.len() && rules@[j].offset == k2 && rules@[j].named@ == s,
            forall|a: int, b: int|
                0 <= a < b < rules@.len() ==> !(rules@[a].offset == rules@[b].offset
                    && rules@[a].named@ == rules@[b].named@),
            in_dispatch_order(rules@),
            done ==> k == n,
        decreases n - k + if done { 0int } else { 1int },
    {
        let ghost t0 = rules@;
        let mut macro_index: Vec<usize> = Vec::new();
        let mut func_index = no_flags(n - k);
        proof {
            assert forall|i: int| 0 <= i < func_index@.len() implies #[trigger] func_index@[i]
                == macro_index@.contains((k + i) as usize) by {
                assert(!func_index@[i]);
            }
        }
        generate_recursive(required, n, k, &mut macro_index, &mut func_index, &mut rules);
        proof {
            assert forall|s: Seq<usize>| #[trigger] valid_shape(n as nat, k as nat, s) implies
                exists|j: int| t0.len() <= j < rules@.len() && rules@[j].named@ == s by {
                assert(Seq::<usize>::empty() =~= s.subrange(0, 0));
                assert(extends_shape(n as nat, k as nat, Seq::<usize>::empty(), s));
            }
            assert forall|a: int, b: int| 0 <= a < b < rules@.len() implies !(rules@[a].offset
                == rules@[b].offset && rules@[a].named@ == rules@[b].named@) by {
                if b >= t0.len() && a < t0.len() {
                    assert(rules@[a] == t0[a]);
                }
            }
            assert forall|a: int, b: int| 0 <= a < b < rules@.len() implies #[trigger] rules@[a].offset
                < #[trigger] rules@[b].offset || (rules@[a].offset == rules@[b].offset && lex_lt(
                rules@[a].named@,
                rules@[b].named@,
            )) by {
                if a < t0.len() {
                    assert(rules@[a] == t0[a]);
                    if b < t0.len() {
                        assert(rules@[b] == t0[b]);
                    }
                }
            }
        }
        if k == n {
            done = true;
        } else {
            k += 1;
        }
    }
    proof {
        assert forall|a: int, b: int| 0 <= a < b < rules@.len() implies !(rules@[a].positional
            == rules@[b].positional && rules@[a].named@ == rules@[b].named@) by {
            assert(rules@[a].well_formed(required as nat, n as nat));
            assert(rules@[b].well_formed(required as nat, n as nat));
        }
        assert(valid_shape(n as nat, 0, Seq::<usize>::empty()));
        let w = choose|w: int|
            0 <= w < rules@.len() && rules@[w].offset == 0 && rules@[w].named@ == Seq::<usize>::empty();
        if w > 0 {
            assert(rules@[0].offset < rules@[w].offset || (rules@[0].offset == rules@[w].offset
                && lex_lt(rules@[0].named@, rules@[w].named@)));
        }
        assert forall|a: int, b: int|
            0 <= a < b < rules@.len() && rules@[a].offset == rules@[b].offset implies rules@[b].named@.len()
            > 0 by {
            assert(rules@[a].offset < rules@[b].offset || (rules@[a].offset == rules@[b].offset
                && lex_lt(rules@[a].named@, rules@[b].named@)));
        }
        assert forall|a: int, b: int| 0 <= a < b < rules@.len() implies rules@[a].offset
            <= rules@[b].offset by {
            assert(rules@[a].offset < rules@[b].offset || (rules@[a].offset == rules@[b].offset
                && lex_lt(rules@[a].named@, rules@[b].named@)));
        }
    }
    DispatchTable { required, optional, rules }
}

/// Whether two sequences of indices are equal.
fn same_indices(a: &Vec<usize>, b: &Vec<usize>) -> (r: bool)
    ensures
        r == (a@ == b@),
{
    if a.len() != b.len() {
        return false;
    }
    let mut i: usize = 0;
    while i < a.len()
        invariant
            a@.len() == b@.len(),
            i <= a@.len(),
            forall|j: int| 0 <= j < i ==> a@[j] == b@[j],
        decreases a@.len() - i,
    {
        if a[i] != b[i] {
            return false;
        }
        i += 1;
    }
    proof {
        assert(a@ =~= b@);
    }
    true
}

impl DispatchTable {
    /// The call with `positional` arguments by position, followed by the
    /// optional indices `named` by name, is accepted by some rule.
    pub open spec fn accepted(&self, positional: nat, named: Seq<usize>) -> bool {
        self.required <= positional && valid_shape(
            self.optional as nat,
            (positional - self.required) as nat,
            named,
        )
    }

    /// The index of the rule that accepts the call, if any; no other rule
    /// accepts it.
    pub fn resolve(&self, positional: usize, named: &Vec<usize>) -> (r: Option<usize>)
        requires
            self.wf(),
        ensures
            r is Some <==> self.accepted(positional as nat, named@),
            r matches Some(j) ==> {
                &&& j < self.rules@.len()
                &&& self.rules@[j as int].accepts(positional as nat, named@)
                &&& forall|j2: int|
                    0 <= j2 < self.rules@.len() && #[trigger] self.rules@[j2].accepts(
                        positional as nat,
                        named@,
                    ) ==> j2 == j
            },
    {
        let mut j: usize = 0;
        while j < self.rules.len()
            invariant
                self.wf(),
                j <= self.rules@.len(),
                forall|j2: int| 0 <= j2 < j ==> !#[trigger] self.rules@[j2].accepts(positional as nat, named@),
            decreases self.rules@.len() - j,
        {
            let rule = &self.rules[j];
            if rule.positional == positional && same_indices(&rule.named, named) {
                proof {
                    assert(rule.well_formed(self.required as nat, self.optional as nat));
                    assert forall|j2: int|
                        0 <= j2 < self.rules@.len() && #[trigger] self.rules@[j2].accepts(
                            positional as nat,
                            named@,
                        ) implies j2 == j by {
                        if j2 > j {
                            assert(!(self.rules@[j as int].positional == self.rules@[j2].positional
                                && self.rules@[j as int].named@ == self.rules@[j2].named@));
                        }
                    }
                }
                return Some(j);
            }
            j += 1;
        }
        proof {
            if self.accepted(positional as nat, named@) {
                let k = (positional - self.required) as nat;
                assert(valid_shape(self.optional as nat, k, named@));
                let w = choose|w: int|
                    0 <= w < self.rules@.len() && self.rules@[w].offset == k && self.rules@[w].named@
                        == named@;
                assert(self.rules@[w].well_formed(self.required as nat, self.optional as nat));
                assert(self.rules@[w].accepts(positional as nat, named@));
            }
        }
        None
    }
}

/// A call with the required arguments alone is accepted, and only by the rule
/// with no optional argument by position and none by name, which is the first
/// rule of the table and forwards the required arguments followed by every
/// default.
pub proof fn law_required_only_call(t: DispatchTable)
    requires
        t.wf(),
    ensures
        t.rules@.len() > 0 && t.rules@[0].accepts(t.required as nat, Seq::empty()),
        exists|j: int| 0 <= j < t.rules@.len() && #[trigger] t.rules@[j].accepts(t.required as nat, Seq::empty()),
        forall|j: int|
            0 <= j < t.rules@.len() && #[trigger] t.rules@[j].accepts(t.required as nat, Seq::empty())
                ==> {
                &&& t.rules@[j].offset == 0
                &&& t.rules@[j].named@.len() == 0
                &&& t.rules@[j].args@.len() == t.required + t.optional
                &&& forall|p: int| 0 <= p < t.required ==> #[trigger] t.rules@[j].args@[p] == Slot::Positional(p as usize)
                &&& forall|i: int| 0 <= i < t.optional ==> #[trigger] t.rules@[j].args@[t.required + i] == Slot::Default(i as usize)
            },
{
    let empty = Seq::<usize>::empty();
    assert(valid_shape(t.optional as nat, 0, empty));
    let w = choose|w: int| 0 <= w < t.rules@.len() && t.rules@[w].offset == 0 && t.rules@[w].named@ == empty;
    assert(t.rules@[w].well_formed(t.required as nat, t.optional as nat));
    assert(t.rules@[w].accepts(t.required as nat, empty));
    if w > 0 {
        assert(t.rules@[0].offset < t.rules@[w].offset || (t.rules@[0].offset == t.rules@[w].offset
            && lex_lt(t.rules@[0].named@, t.rules@[w].named@)));
    }
    assert(t.rules@[0].well_formed(t.required as nat, t.optional as nat));
    assert forall|j: int| 0 <= j < t.rules@.len() && #[trigger] t.rules@[j].accepts(t.required as nat, empty)
        implies forall|i: int| 0 <= i < t.optional ==> #[trigger] t.rules@[j].args@[t.required + i] == Slot::Default(i as usize) by {
        assert(t.rules@[j].well_formed(t.required as nat, t.optional as nat));
        assert forall|i: int| 0 <= i < t.optional implies #[trigger] t.rules@[j].args@[t.required + i] == Slot::Default(i as usize) by {
            assert(!empty.contains(i as usize));
        }
    }
    assert forall|j: int| 0 <= j < t.rules@.len() && #[trigger] t.rules@[j].accepts(t.required as nat, empty)
        implies t.rules@[j].offset == 0 by {
        assert(t.rules@[j].well_formed(t.required as nat, t.optional as nat));
    }
}

/// A call with every argument by position is accepted, and only by the rule
/// with all optional arguments by position, which forwards each argument as
/// given and no default.
pub proof fn law_all_positional_call(t: DispatchTable)
    requires
        t.wf(),
    ensures
        exists|j: int|
            0 <= j < t.rules@.len() && #[trigger] t.rules@[j].accepts((t.required + t.optional) as nat, Seq::empty()),
        forall|j: int|
            0 <= j < t.rules@.len() && #[trigger] t.rules@[j].accepts((t.required + t.optional) as nat, Seq::empty())
                ==> {
                &&& t.rules@[j].offset == t.optional
                &&& t.rules@[j].args@.len() == t.required + t.optional
                &&& forall|p: int| 0 <= p < t.required + t.optional ==> #[trigger] t.rules@[j].args@[p] == Slot::Positional(p as usize)
            },
{
    let empty = Seq::<usize>::empty();
    let all = (t.required + t.optional) as nat;
    assert(valid_shape(t.optional as nat, t.optional as nat, empty));
    let w = choose|w: int| 0 <= w < t.rules@.len() && t.rules@[w].offset == t.optional && t.rules@[w].named@ == empty;
    assert(t.rules@[w].well_formed(t.required as nat, t.optional as nat));
    assert(t.rules@[w].accepts(all, empty));
    assert forall|j: int| 0 <= j < t.rules@.len() && #[trigger] t.rules@[j].accepts(all, empty)
        implies t.rules@[j].offset == t.optional by {
        assert(t.rules@[j].well_formed(t.required as nat, t.optional as nat));
    }
}

/// A call with the required arguments by position and the single optional
/// parameter `x` by name is accepted, and only by the rule with no optional
/// argument by position that names `x` alone; every other optional parameter,
/// earlier ones included, takes its default.
pub proof fn law_one_named_call(t: DispatchTable, x: usize)
    requires
        t.wf(),
        x < t.optional,
    ensures
        exists|j: int| 0 <= j < t.rules@.len() && #[trigger] t.rules@[j].accepts(t.required as nat, seq![x]),
        forall|j: int|
            0 <= j < t.rules@.len() && #[trigger] t.rules@[j].accepts(t.required as nat, seq![x]) ==> {
                &&& t.rules@[j].offset == 0
                &&& t.rules@[j].named@ == seq![x]
                &&& t.rules@[j].args@.len() == t.required + t.optional
                &&& forall|p: int| 0 <= p < t.required ==> #[trigger] t.rules@[j].args@[p] == Slot::Positional(p as usize)
                &&& t.rules@[j].args@[t.required + x] == Slot::Named(x)
                &&& forall|i: int| 0 <= i < t.optional && i != x ==> #[trigger] t.rules@[j].args@[t.required + i] == Slot::Default(i as usize)
            },
{
    let one = seq![x];
    assert(valid_shape(t.optional as nat, 0, one));
    let w = choose|w: int| 0 <= w < t.rules@.len() && t.rules@[w].offset == 0 && t.rules@[w].named@ == one;
    assert(t.rules@[w].well_formed(t.required as nat, t.optional as nat));
    assert(t.rules@[w].accepts(t.required as nat, one));
    assert forall|j: int| 0 <= j < t.rules@.len() && #[trigger] t.rules@[j].accepts(t.required as nat, one)
        implies {
            &&& t.rules@[j].offset == 0
            &&& t.rules@[j].args@[t.required + x] == Slot::Named(x)
            &&& forall|i: int| 0 <= i < t.optional && i != x ==> #[trigger] t.rules@[j].args@[t.required + i] == Slot::Default(i as usize)
        } by {
        assert(t.rules@[j].well_formed(t.required as nat, t.optional as nat));
        assert(one[0] == x);
        assert(one.contains(x));
        assert forall|i: int| 0 <= i < t.optional && i != x implies #[trigger] t.rules@[j].args@[t.required + i] == Slot::Default(i as usize) by {
            if one.contains(i as usize) {
                let w2 = choose|w2: int| 0 <= w2 < one.len() && one[w2] == i as usize;
                assert(w2 == 0);
            }
        }
    }
}

/// No rule binds an optional parameter twice: a named one is never among
/// those given by position, nor named twice, and each optional slot of the
/// forwarded call has exactly one source.
pub proof fn law_no_double_binding(t: DispatchTable)
    requires
        t.wf(),
    ensures
        forall|j: int| 0 <= j < t.rules@.len() ==> (#[trigger] t.rules@[j]).named@.no_duplicates(),
        forall|j: int, w: int|
            0 <= j < t.rules@.len() && 0 <= w < t.rules@[j].named@.len() ==> t.rules@[j].offset
                <= #[trigger] t.rules@[j].named@[w],
        forall|j: int, i: int|
            0 <= j < t.rules@.len() && 0 <= i < t.optional ==> {
                let a = #[trigger] t.rules@[j].args@[t.required + i];
                &&& (i < t.rules@[j].offset <==> a == Slot::Positional((t.required + i) as usize))
                &&& (t.rules@[j].offset <= i && t.rules@[j].named@.contains(i as usize) <==> a == Slot::Named(i as usize))
            },
{
    assert forall|j: int| 0 <= j < t.rules@.len() implies (#[trigger] t.rules@[j]).named@.no_duplicates() by {
        assert(t.rules@[j].well_formed(t.required as nat, t.optional as nat));
    }
    assert forall|j: int, w: int|
        0 <= j < t.rules@.len() && 0 <= w < t.rules@[j].named@.len() implies t.rules@[j].offset
            <= #[trigger] t.rules@[j].named@[w] by {
        assert(t.rules@[j].well_formed(t.required as nat, t.optional as nat));
    }
    assert forall|j: int, i: int| 0 <= j < t.rules@.len() && 0 <= i < t.optional implies {
        let a = #[trigger] t.rules@[j].args@[t.required + i];
        &&& (i < t.rules@[j].offset <==> a == Slot::Positional((t.required + i) as usize))
        &&& (t.rules@[j].offset <= i && t.rules@[j].named@.contains(i as usize) <==> a == Slot::Named(i as usize))
    } by {
        let r = t.rules@[j];
        assert(r.well_formed(t.required as nat, t.optional as nat));
        if i < r.offset && r.named@.contains(i as usize) {
            let w = choose|w: int| 0 <= w < r.named@.len() && r.named@[w] == i as usize;
            assert(r.offset <= r.named@[w]);
        }
    }
}

} // verus!
