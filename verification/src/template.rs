//! The variable store: a tree of names and typed values.

use crate::pair::Pair;
use crate::text::same_text;
use vstd::prelude::*;

verus! {

/// A stored value: a leaf of one of five kinds, or a nested store.
pub enum TemplateVariable {
    /// A truth value.
    Boolean(bool),
    /// A value of any kind that has a text form, held as that text.
    Displayable(String),
    /// A floating-point number, held as its decimal text.
    Double(String),
    /// A whole number.
    Integer(i64),
    /// A piece of text.
    String(String),
    /// A nested store.
    SubContext(Context),
}

/// The map that `pairs` build when they are stored one after the other: a
/// later pair takes the place of an earlier one of the same name.
pub open spec fn stored(pairs: Seq<Pair>) -> Map<Seq<char>, TemplateVariable>
    decreases pairs.len(),
{
    if pairs.len() == 0 {
        Map::empty()
    } else {
        stored(pairs.drop_last()).insert(pairs.last().0@, pairs.last().1)
    }
}

/// Whether no two of `pairs` have the same name.
pub open spec fn distinct_names(pairs: Seq<Pair>) -> bool {
    forall|i: int, j: int|
        0 <= i < j < pairs.len() ==> (#[trigger] pairs[i]).0@ != (#[trigger] pairs[j]).0@
}

/// A variable store: names, each with one value.
pub struct Context {
    vars: Vec<Pair>,
}

impl View for Context {
    type V = Map<Seq<char>, TemplateVariable>;

    closed spec fn view(&self) -> Map<Seq<char>, TemplateVariable> {
        stored(self.vars@)
    }
}

/// A name is stored exactly when one of the pairs has it.
pub proof fn lemma_stored_names(pairs: Seq<Pair>, name: Seq<char>)
    ensures
        stored(pairs).contains_key(name) <==> exists|i: int|
            0 <= i < pairs.len() && (#[trigger] pairs[i]).0@ == name,
    decreases pairs.len(),
{
    if pairs.len() > 0 {
        let front = pairs.drop_last();
        lemma_stored_names(front, name);
        if stored(pairs).contains_key(name) {
            if pairs.last().0@ == name {
                assert(pairs[pairs.len() - 1].0@ == name);
            } else {
                let i = choose|i: int| 0 <= i < front.len() && (#[trigger] front[i]).0@ == name;
                assert(pairs[i].0@ == name);
            }
        }
        if exists|i: int| 0 <= i < pairs.len() && (#[trigger] pairs[i]).0@ == name {
            let i = choose|i: int| 0 <= i < pairs.len() && (#[trigger] pairs[i]).0@ == name;
            if i < pairs.len() - 1 {
                assert(front[i].0@ == name);
            }
        }
    }
}

/// Each name is stored with the value of the last pair that has it.
pub proof fn lemma_last_pair_wins(pairs: Seq<Pair>, i: int)
    requires
        0 <= i < pairs.len(),
        forall|j: int| i < j < pairs.len() ==> (#[trigger] pairs[j]).0@ != pairs[i].0@,
    ensures
        stored(pairs).contains_key(pairs[i].0@),
        stored(pairs)[pairs[i].0@] == pairs[i].1,
    decreases pairs.len(),
{
    if i < pairs.len() - 1 {
        let front = pairs.drop_last();
        assert forall|j: int| i < j < front.len() implies (#[trigger] front[j]).0@
            != front[i].0@ by {
            assert(front[j] == pairs[j] && front[i] == pairs[i]);
        }
        lemma_last_pair_wins(front, i);
        assert(front[i] == pairs[i]);
        assert(pairs[pairs.len() - 1].0@ != pairs[i].0@);
    }
}

/// Among pairs of distinct names, to put a pair in the place of the one
/// that has its name is to store it after the others.
pub proof fn lemma_stored_update(pairs: Seq<Pair>, i: int, pair: Pair)
    requires
        distinct_names(pairs),
        0 <= i < pairs.len(),
        pairs[i].0@ == pair.0@,
    ensures
        distinct_names(pairs.update(i, pair)),
        stored(pairs.update(i, pair)) == stored(pairs).insert(pair.0@, pair.1),
    decreases pairs.len(),
{
    let updated = pairs.update(i, pair);
    assert(distinct_names(updated)) by {
        assert forall|a: int, b: int| 0 <= a < b < updated.len() implies (#[trigger] updated[a]).0@
            != (#[trigger] updated[b]).0@ by {
            assert(updated[a].0@ == pairs[a].0@ && updated[b].0@ == pairs[b].0@);
        }
    }
    let front = pairs.drop_last();
    if i == pairs.len() - 1 {
        assert(updated.drop_last() =~= front);
        assert(stored(updated) =~= stored(pairs).insert(pair.0@, pair.1));
    } else {
        assert(distinct_names(front)) by {
            assert forall|a: int, b: int| 0 <= a < b < front.len() implies (#[trigger] front[a]).0@
                != (#[trigger] front[b]).0@ by {
                assert(front[a] == pairs[a] && front[b] == pairs[b]);
            }
        }
        lemma_stored_update(front, i, pair);
        assert(updated.drop_last() =~= front.update(i, pair));
        assert(updated.last() == pairs.last());
        assert(pairs[i].0@ != pairs[pairs.len() - 1].0@);
        assert(stored(updated) =~= stored(pairs).insert(pair.0@, pair.1));
    }
}

impl Context {
    #[verifier::type_invariant]
    spec fn names_are_distinct(&self) -> bool {
        distinct_names(self.vars@)
    }

    /// The store that `pairs` build: each name with the value of the last
    /// pair that has it.
    pub fn with(pairs: Vec<Pair>) -> (context: Self)
        ensures
            context@ == stored(pairs@),
    {
        let ghost all = pairs@;
        let mut vars: Vec<Pair> = Vec::new();
        for pair in it: pairs
            invariant
                it.seq() == all,
                distinct_names(vars@),
                stored(vars@) == stored(all.take(it.index())),
        {
            proof {
                assert(all.take(it.index() + 1).drop_last() =~= all.take(it.index()));
                assert(all.take(it.index() + 1).last() == pair);
            }
            let mut at: usize = 0;
            while at < vars.len() && !(vars[at].0 == pair.0)
                invariant
                    at <= vars.len(),
                    forall|i: int| 0 <= i < at ==> (#[trigger] vars@[i]).0@ != pair.0@,
                decreases vars.len() - at,
            {
                at += 1;
            }
            if at < vars.len() {
                proof {
                    lemma_stored_update(vars@, at as int, pair);
                }
                vars.set(at, pair);
            } else {
                proof {
                    assert(vars@.push(pair).drop_last() =~= vars@);
                    assert(distinct_names(vars@.push(pair))) by {
                        let pushed = vars@.push(pair);
                        assert forall|a: int, b: int| 0 <= a < b < pushed.len() implies (
                        #[trigger] pushed[a]).0@ != (#[trigger] pushed[b]).0@ by {
                            if b < vars@.len() {
                                assert(pushed[a] == vars@[a] && pushed[b] == vars@[b]);
                            } else {
                                assert(pushed[a] == vars@[a]);
                            }
                        }
                    }
                }
                vars.push(pair);
            }
        }
        assert(all.take(all.len() as int) =~= all);
        Context { vars }
    }

    /// The value stored under `name`, if there is one.
    pub fn get(&self, name: &str) -> (value: Option<&TemplateVariable>)
        ensures
            match value {
                Some(variable) => self@.contains_key(name@) && *variable == self@[name@],
                None => !self@.contains_key(name@),
            },
    {
        proof {
            use_type_invariant(self);
        }
        let mut at: usize = 0;
        while at < self.vars.len()
            invariant
                at <= self.vars.len(),
                distinct_names(self.vars@),
                forall|i: int| 0 <= i < at ==> (#[trigger] self.vars@[i]).0@ != name@,
            decreases self.vars.len() - at,
        {
            if same_text(self.vars[at].0.as_str(), name) {
                proof {
                    lemma_last_pair_wins(self.vars@, at as int);
                }
                return Some(&self.vars[at].1);
            }
            at += 1;
        }
        proof {
            lemma_stored_names(self.vars@, name@);
        }
        None
    }
}

} // verus!
