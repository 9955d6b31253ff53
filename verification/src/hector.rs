//! The worst-case-optimal join: which bindings extend a prefix by each variable, and
//! which of them proposes.

use crate::error::{conflict, decimal, decimal_text, frame, framed, not_found, Error};
use crate::plan::{Binding, Hector};
use crate::rules::ImplContext;
use crate::value::{clone_tuple, views, Value, Var};
use vstd::prelude::*;
use vstd::string::StringExecFns;

verus! {

/// The step of the join that extends the tuples over the variables in front of
/// `variable` by a value for it.
#[derive(Debug)]
pub struct Stage {
    /// The variable that the step adds.
    pub variable: Var,
    /// The positions, in declared order, of the bindings that mention the variable.
    pub bindings: Vec<usize>,
    /// Of those, in declared order, the ones whose other variable is in the prefix.
    /// The one with the fewest extensions for a prefix proposes; the others validate,
    /// in this order.
    pub extenders: Vec<Extender>,
}

/// A binding that relates the variable of a stage to a variable in front of it, and
/// so extends a prefix by the values that its attribute has for the prefix's value of
/// that other variable.
#[derive(Clone, Copy, Debug, PartialEq, Eq, Structural)]
pub struct Extender {
    /// The position of the binding.
    pub binding: usize,
    /// The offset, in the prefix, of the binding's other variable: the key under
    /// which extensions are counted, proposed and validated.
    pub key: usize,
    /// Whether the key is the entity and the extension the value, so that the index
    /// from entity to value is used, or the other way round.
    pub forward: bool,
}

/// The first position of `variable` among the first `k` variables, if it is there.
pub open spec fn offset_in(variables: Seq<Var>, k: nat, variable: Var) -> Option<usize>
    decreases k,
{
    if k == 0 {
        None
    } else {
        match offset_in(variables, (k - 1) as nat, variable) {
            Some(offset) => Some(offset),
            None => if variables[k - 1] == variable {
                Some((k - 1) as usize)
            } else {
                None
            },
        }
    }
}

/// How the binding at `position` extends the prefix over the first `k` variables by
/// `variable`, if it does: it mentions the variable, and its other variable is in the
/// prefix.
pub open spec fn extender(
    bindings: Seq<Binding>,
    variables: Seq<Var>,
    k: nat,
    variable: Var,
    position: int,
) -> Option<Extender> {
    let binding = bindings[position];
    if binding.symbols.1 == variable {
        match offset_in(variables, k, binding.symbols.0) {
            Some(key) => Some(Extender { binding: position as usize, key, forward: true }),
            None => None,
        }
    } else if binding.symbols.0 == variable {
        match offset_in(variables, k, binding.symbols.1) {
            Some(key) => Some(Extender { binding: position as usize, key, forward: false }),
            None => None,
        }
    } else {
        None
    }
}

/// The extenders among the first `n` bindings, in declared order.
pub open spec fn extenders(
    bindings: Seq<Binding>,
    variables: Seq<Var>,
    k: nat,
    variable: Var,
    n: nat,
) -> Seq<Extender>
    decreases n,
{
    if n == 0 {
        Seq::empty()
    } else {
        let before = extenders(bindings, variables, k, variable, (n - 1) as nat);
        match extender(bindings, variables, k, variable, n - 1) {
            Some(found) => before.push(found),
            None => before,
        }
    }
}

/// An offset that is found lies within the variables that were searched.
pub proof fn lemma_offset_bound(variables: Seq<Var>, k: nat, variable: Var)
    requires
        k <= variables.len() <= usize::MAX,
    ensures
        offset_in(variables, k, variable) matches Some(offset) ==> offset < k
            && variables[offset as int] == variable,
    decreases k,
{
    if k > 0 {
        lemma_offset_bound(variables, (k - 1) as nat, variable);
    }
}

/// Every extender names a binding among the first `n` and a key within the prefix.
pub proof fn lemma_extenders(
    bindings: Seq<Binding>,
    variables: Seq<Var>,
    k: nat,
    variable: Var,
    n: nat,
)
    requires
        k <= variables.len() <= usize::MAX,
        n <= bindings.len() <= usize::MAX,
    ensures
        forall|j: int|
            0 <= j < extenders(bindings, variables, k, variable, n).len() ==> {
                let found = #[trigger] extenders(bindings, variables, k, variable, n)[j];
                found.binding < n && found.key < k
            },
    decreases n,
{
    if n > 0 {
        let before = extenders(bindings, variables, k, variable, (n - 1) as nat);
        let all = extenders(bindings, variables, k, variable, n);
        lemma_extenders(bindings, variables, k, variable, (n - 1) as nat);
        lemma_offset_bound(variables, k, bindings[n - 1].symbols.0);
        lemma_offset_bound(variables, k, bindings[n - 1].symbols.1);
        assert forall|j: int| 0 <= j < all.len() implies (#[trigger] all[j]).binding < n
            && all[j].key < k by {
            if j < before.len() {
                assert(all[j] == before[j]);
            }
        }
    }
}

/// The first position of `variable` among the first `k` variables, if it is there.
fn find_offset(variables: &Vec<Var>, k: usize, variable: Var) -> (offset: Option<usize>)
    requires
        k <= variables@.len(),
    ensures
        offset == offset_in(variables@, k as nat, variable),
{
    let mut i: usize = 0;
    while i < k
        invariant
            i <= k <= variables@.len(),
            offset_in(variables@, i as nat, variable) is None,
        decreases k - i,
    {
        if variables[i] == variable {
            proof {
                lemma_offset_found(variables@, (i + 1) as nat, k as nat, variable);
            }
            return Some(i);
        }
        i += 1;
    }
    None
}

/// An offset that is found among some variables is found among more.
proof fn lemma_offset_found(variables: Seq<Var>, n: nat, m: nat, variable: Var)
    requires
        n <= m,
        offset_in(variables, n, variable) is Some,
    ensures
        offset_in(variables, m, variable) == offset_in(variables, n, variable),
    decreases m,
{
    if n < m {
        lemma_offset_found(variables, n, (m - 1) as nat, variable);
    }
}

/// The positions, among the first `n` bindings, of those that mention `variable`, in
/// ascending order.
pub open spec fn mentioning(bindings: Seq<Binding>, variable: Var, n: nat) -> Seq<usize>
    decreases n,
{
    if n == 0 {
        Seq::empty()
    } else {
        let before = mentioning(bindings, variable, (n - 1) as nat);
        if bindings[n - 1].mentions(variable) {
            before.push((n - 1) as usize)
        } else {
            before
        }
    }
}

/// Whether some binding mentions `variable`.
pub open spec fn bound(bindings: Seq<Binding>, variable: Var) -> bool {
    exists|i: int| 0 <= i < bindings.len() && #[trigger] bindings[i].mentions(variable)
}

/// A variable is bound exactly if the list of the bindings that mention it is not
/// empty.
pub proof fn lemma_mentioning(bindings: Seq<Binding>, variable: Var, n: nat)
    requires
        n <= bindings.len(),
    ensures
        mentioning(bindings, variable, n).len() > 0 <==> exists|i: int|
            0 <= i < n && #[trigger] bindings[i].mentions(variable),
        forall|k: int|
            0 <= k < mentioning(bindings, variable, n).len() ==> #[trigger] mentioning(
                bindings,
                variable,
                n,
            )[k] < n,
    decreases n,
{
    if n > 0 {
        lemma_mentioning(bindings, variable, (n - 1) as nat);
        if bindings[n - 1].mentions(variable) {
        } else {
            if exists|i: int| 0 <= i < n && #[trigger] bindings[i].mentions(variable) {
                let i = choose|i: int| 0 <= i < n && #[trigger] bindings[i].mentions(variable);
                assert(i < n - 1);
            }
        }
    }
}

/// The text of the error for a binding whose attribute does not exist.
pub open spec fn unknown_source(aid: Seq<char>) -> Seq<char> {
    framed("Attribute "@, aid, " does not exist."@)
}

/// The first of the variables from the position `from` on that no binding mentions, if
/// there is one.
pub open spec fn first_unbound(bindings: Seq<Binding>, variables: Seq<Var>, from: nat) -> Option<
    Var,
>
    decreases variables.len() - from,
{
    if from >= variables.len() {
        None
    } else if !bound(bindings, variables[from as int]) {
        Some(variables[from as int])
    } else {
        first_unbound(bindings, variables, from + 1)
    }
}

/// The variable at `k` is the first that no binding mentions, when every variable
/// between `from` and `k` is mentioned and the one at `k` is not.
pub proof fn lemma_first_unbound(bindings: Seq<Binding>, variables: Seq<Var>, from: nat, k: int)
    requires
        from <= k < variables.len(),
        !bound(bindings, variables[k]),
        forall|j: int| from <= j < k ==> bound(bindings, #[trigger] variables[j]),
    ensures
        first_unbound(bindings, variables, from) == Some(variables[k]),
    decreases k - from,
{
    if from < k {
        assert(bound(bindings, variables[from as int]));
        lemma_first_unbound(bindings, variables, from + 1, k);
    }
}

/// No variable is the first that no binding mentions, when every variable from `from`
/// on is mentioned.
pub proof fn lemma_none_unbound(bindings: Seq<Binding>, variables: Seq<Var>, from: nat)
    requires
        forall|j: int| from <= j < variables.len() ==> bound(bindings, #[trigger] variables[j]),
    ensures
        first_unbound(bindings, variables, from) is None,
    decreases variables.len() - from,
{
    if from < variables.len() {
        assert(bound(bindings, variables[from as int]));
        lemma_none_unbound(bindings, variables, from + 1);
    }
}

/// The text of the error for a variable that no binding mentions.
pub open spec fn unbound_variable(variable: Var) -> Seq<char> {
    framed("Variable "@, decimal(variable as nat), " is not mentioned by any binding."@)
}

/// Of the counts of extensions that the bindings of a stage report for one prefix, the
/// position of the least; of several that are least, the first.
pub fn proposer(counts: &Vec<u64>) -> (chosen: usize)
    requires
        counts@.len() > 0,
    ensures
        chosen < counts@.len(),
        forall|i: int| 0 <= i < counts@.len() ==> counts@[chosen as int] <= counts@[i],
        forall|i: int| 0 <= i < chosen ==> counts@[chosen as int] < counts@[i],
{
    let mut chosen: usize = 0;
    let mut i: usize = 1;
    while i < counts.len()
        invariant
            1 <= i <= counts.len(),
            chosen < i,
            forall|j: int| 0 <= j < i ==> counts@[chosen as int] <= counts@[j],
            forall|j: int| 0 <= j < chosen ==> counts@[chosen as int] < counts@[j],
        decreases counts.len() - i,
    {
        if counts[i] < counts[chosen] {
            chosen = i;
        }
        i += 1;
    }
    chosen
}

impl Stage {
    /// Whether the stage is one at the position `k` of a join over `n` bindings: it
    /// names a binding, every binding it names is one of the `n`, and every key lies
    /// within the prefix of `k` values.
    pub open spec fn fits(&self, k: nat, n: nat) -> bool {
        &&& self.bindings@.len() > 0
        &&& forall|j: int| 0 <= j < self.bindings@.len() ==> self.bindings@[j] < n
        &&& forall|j: int|
            0 <= j < self.extenders@.len() ==> self.extenders@[j].binding < n
                && self.extenders@[j].key < k
    }

    /// The binding whose values for the variable start the extension where no binding
    /// relates the variable to the prefix: the first that mentions it. With it comes
    /// whether the variable is the binding's entity, so that the values are the keys
    /// of the index from entity to value, or else its value.
    pub fn seed(&self, bindings: &Vec<Binding>) -> (seed: (usize, bool))
        requires
            exists|k: nat| self.fits(k, bindings@.len()),
        ensures
            seed.0 == self.bindings@[0],
            seed.1 == (bindings@[seed.0 as int].symbols.0 == self.variable),
    {
        let first = self.bindings[0];
        (first, bindings[first].symbols.0 == self.variable)
    }
}

/// The prefix extended by a value for the next variable.
pub fn extended(prefix: &Vec<Value>, value: &Value) -> (tuple: Vec<Value>)
    ensures
        views(tuple@) == views(prefix@).push(value@),
{
    let mut tuple = clone_tuple(prefix);
    tuple.push(value.clone());
    assert(views(tuple@) =~= views(prefix@).push(value@));
    tuple
}

impl Extender {
    /// The value of the prefix under which the extender's index is read: the one at
    /// the offset of the binding's other variable.
    pub fn key_of(&self, prefix: &Vec<Value>) -> (key: Value)
        requires
            self.key < prefix@.len(),
        ensures
            key@ == prefix@[self.key as int]@,
    {
        prefix[self.key].clone()
    }

    /// What the extender validates of an extended prefix: the pair of its key and the
    /// value that the prefix was extended by, which is the last.
    pub fn validated(&self, tuple: &Vec<Value>) -> (pair: (Value, Value))
        requires
            self.key < tuple@.len(),
        ensures
            pair.0@ == tuple@[self.key as int]@,
            pair.1@ == tuple@[tuple@.len() - 1]@,
    {
        (tuple[self.key].clone(), tuple[tuple.len() - 1].clone())
    }
}

impl Binding {
    /// The variable that the binding relates `variable` to: the value's for the
    /// entity's, the entity's for any other.
    pub fn other(&self, variable: Var) -> (other: Var)
        ensures
            other == if self.symbols.0 == variable {
                self.symbols.1
            } else {
                self.symbols.0
            },
    {
        if self.symbols.0 == variable {
            self.symbols.1
        } else {
            self.symbols.0
        }
    }

    /// Whether the binding constrains `variable`.
    pub fn is_about(&self, variable: Var) -> (mentioned: bool)
        ensures
            mentioned == self.mentions(variable),
    {
        self.symbols.0 == variable || self.symbols.1 == variable
    }
}

impl Hector {
    /// Every binding draws on an attribute that exists.
    pub open spec fn sourced(&self, attributes: Set<Seq<char>>) -> bool {
        forall|i: int|
            0 <= i < self.bindings@.len() ==> attributes.contains(
                #[trigger] self.bindings@[i].source@,
            )
    }

    /// Every variable is mentioned by a binding.
    pub open spec fn covered(&self) -> bool {
        forall|k: int|
            0 <= k < self.variables@.len() ==> bound(self.bindings@, #[trigger] self.variables@[k])
    }

    /// Lays out the join: one stage for each variable, in order, with the bindings that
    /// mention it. A join without variables has no stage and yields the empty relation.
    ///
    /// Fails with a not-found error for the first binding whose attribute does not
    /// exist; else with a conflict for the first variable that no binding mentions.
    pub fn stages<I: ImplContext>(&self, context: &I) -> (result: Result<Vec<Stage>, Error>)
        ensures
            result is Ok == (self.sourced(context.attributes()) && self.covered()),
            result matches Ok(stages) ==> {
                &&& stages@.len() == self.variables@.len()
                &&& forall|k: int|
                    #![trigger stages@[k]]
                    0 <= k < stages@.len() ==> stages@[k].variable == self.variables@[k]
                        && stages@[k].bindings@ == mentioning(
                        self.bindings@,
                        self.variables@[k],
                        self.bindings@.len(),
                    ) && stages@[k].extenders@ == extenders(
                        self.bindings@,
                        self.variables@,
                        k as nat,
                        self.variables@[k],
                        self.bindings@.len(),
                    )
                &&& forall|k: int|
                    #![trigger stages@[k]]
                    0 <= k < stages@.len() ==> stages@[k].fits(k as nat, self.bindings@.len())
            },
            result matches Err(error) ==> if !self.sourced(context.attributes()) {
                exists|i: int|
                    #![trigger self.bindings@[i]]
                    {
                        &&& 0 <= i < self.bindings@.len()
                        &&& !context.attributes().contains(self.bindings@[i].source@)
                        &&& forall|j: int|
                            0 <= j < i ==> context.attributes().contains(
                                #[trigger] self.bindings@[j].source@,
                            )
                        &&& error.says(not_found(), unknown_source(self.bindings@[i].source@))
                    }
            } else {
                exists|k: int|
                    #![trigger self.variables@[k]]
                    {
                        &&& 0 <= k < self.variables@.len()
                        &&& !bound(self.bindings@, self.variables@[k])
                        &&& forall|j: int|
                            0 <= j < k ==> bound(self.bindings@, #[trigger] self.variables@[j])
                        &&& error.says(conflict(), unbound_variable(self.variables@[k]))
                    }
            },
            self.bindings@.len() == 0 ==> match result {
                Ok(stages) => self.variables@.len() == 0 && stages@.len() == 0,
                Err(error) => self.variables@.len() > 0 && error.category@ == conflict(),
            },
            self.sourced(context.attributes()) ==> match result {
                Ok(_) => first_unbound(self.bindings@, self.variables@, 0) is None,
                Err(error) => first_unbound(self.bindings@, self.variables@, 0) matches Some(
                    variable,
                ) && error.says(conflict(), unbound_variable(variable)),
            },
    {
        let mut i: usize = 0;
        while i < self.bindings.len()
            invariant
                i <= self.bindings.len(),
                forall|j: int|
                    0 <= j < i ==> context.attributes().contains(
                        #[trigger] self.bindings@[j].source@,
                    ),
            decreases self.bindings.len() - i,
        {
            if !context.has_attribute(self.bindings[i].source.as_str()) {
                return Err(
                    Error::not_found(
                        frame("Attribute ", self.bindings[i].source.as_str(), " does not exist."),
                    ),
                );
            }
            i += 1;
        }
        let mut stages: Vec<Stage> = Vec::new();
        let mut k: usize = 0;
        while k < self.variables.len()
            invariant
                k <= self.variables.len(),
                self.sourced(context.attributes()),
                stages@.len() == k,
                forall|j: int| 0 <= j < k ==> bound(self.bindings@, #[trigger] self.variables@[j]),
                forall|j: int|
                    #![trigger stages@[j]]
                    0 <= j < k ==> stages@[j].variable == self.variables@[j]
                        && stages@[j].bindings@ == mentioning(
                        self.bindings@,
                        self.variables@[j],
                        self.bindings@.len(),
                    ) && stages@[j].extenders@ == extenders(
                        self.bindings@,
                        self.variables@,
                        j as nat,
                        self.variables@[j],
                        self.bindings@.len(),
                    ),
                forall|j: int|
                    #![trigger stages@[j]]
                    0 <= j < k ==> stages@[j].fits(j as nat, self.bindings@.len()),
            decreases self.variables.len() - k,
        {
            let variable = self.variables[k];
            let mut found: Vec<usize> = Vec::new();
            let mut extending: Vec<Extender> = Vec::new();
            let mut b: usize = 0;
            while b < self.bindings.len()
                invariant
                    b <= self.bindings.len(),
                    k < self.variables.len(),
                    found@ == mentioning(self.bindings@, variable, b as nat),
                    extending@ == extenders(
                        self.bindings@,
                        self.variables@,
                        k as nat,
                        variable,
                        b as nat,
                    ),
                decreases self.bindings.len() - b,
            {
                let binding = &self.bindings[b];
                if binding.is_about(variable) {
                    found.push(b);
                }
                if binding.symbols.1 == variable {
                    match find_offset(&self.variables, k, binding.symbols.0) {
                        Some(key) => extending.push(Extender { binding: b, key, forward: true }),
                        None => {},
                    }
                } else if binding.symbols.0 == variable {
                    match find_offset(&self.variables, k, binding.symbols.1) {
                        Some(key) => extending.push(Extender { binding: b, key, forward: false }),
                        None => {},
                    }
                }
                b += 1;
            }
            proof {
                lemma_mentioning(self.bindings@, variable, self.bindings@.len());
                lemma_extenders(
                    self.bindings@,
                    self.variables@,
                    k as nat,
                    variable,
                    self.bindings@.len(),
                );
            }
            if found.len() == 0 {
                proof {
                    lemma_first_unbound(self.bindings@, self.variables@, 0, k as int);
                }
                let text = decimal_text(variable as u64);
                return Err(
                    Error::conflict(
                        frame("Variable ", text.as_str(), " is not mentioned by any binding."),
                    ),
                );
            }
            stages.push(Stage { variable, bindings: found, extenders: extending });
            k += 1;
        }
        proof {
            if self.variables@.len() > 0 {
                assert(bound(self.bindings@, self.variables@[0]));
            }
            lemma_none_unbound(self.bindings@, self.variables@, 0);
        }
        Ok(stages)
    }
}

} // verus!
