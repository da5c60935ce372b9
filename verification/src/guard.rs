//! Acquisition and restoration of variable assignments over an [`EnvTable`].
//!
//! [`lock_env`] walks a list of requested assignments in order, applying each
//! one, and records for every distinct variable name the value it had before
//! acquisition. The recorded values form the snapshot owned by the returned
//! [`EnvGuard`]; releasing the guard plays the snapshot back, which restores
//! the table to exactly its pre-acquisition state.

use crate::table::EnvTable;
use vstd::prelude::*;

verus! {

/// The value of the variable `name` in `env`: its value if set, `None` if
/// unset.
pub open spec fn env_value(env: Map<Seq<char>, Seq<char>>, name: Seq<char>) -> Option<Seq<char>> {
    if env.contains_key(name) {
        Some(env[name])
    } else {
        None
    }
}

/// One assignment applied to an environment: `Some(v)` sets the variable,
/// `None` unsets it.
pub open spec fn apply_one(
    env: Map<Seq<char>, Seq<char>>,
    name: Seq<char>,
    value: Option<Seq<char>>,
) -> Map<Seq<char>, Seq<char>> {
    match value {
        Some(v) => env.insert(name, v),
        None => env.remove(name),
    }
}

/// A list of assignments applied to an environment, in order.
pub open spec fn apply_all(
    env: Map<Seq<char>, Seq<char>>,
    vars: Seq<(Seq<char>, Option<Seq<char>>)>,
) -> Map<Seq<char>, Seq<char>>
    decreases vars.len(),
{
    if vars.len() == 0 {
        env
    } else {
        apply_all(apply_one(env, vars[0].0, vars[0].1), vars.skip(1))
    }
}

/// The set of variable names an assignment list mentions.
pub open spec fn names_of(vars: Seq<(Seq<char>, Option<Seq<char>>)>) -> Set<Seq<char>> {
    Set::new(
        |name: Seq<char>|
            exists|i: int| 0 <= i < vars.len() && (#[trigger] vars[i]).0 == name,
    )
}

/// The snapshot entries for the assignments `vars` over the pre-acquisition
/// environment `env`, skipping every name in `seen`: one entry per distinct
/// new name, in order of first occurrence, recording the value the name has
/// in `env`.
pub open spec fn snapshot_rec(
    env: Map<Seq<char>, Seq<char>>,
    vars: Seq<(Seq<char>, Option<Seq<char>>)>,
    seen: Set<Seq<char>>,
) -> Seq<(Seq<char>, Option<Seq<char>>)>
    decreases vars.len(),
{
    if vars.len() == 0 {
        Seq::empty()
    } else if seen.contains(vars[0].0) {
        snapshot_rec(env, vars.skip(1), seen)
    } else {
        seq![(vars[0].0, env_value(env, vars[0].0))] + snapshot_rec(
            env,
            vars.skip(1),
            seen.insert(vars[0].0),
        )
    }
}

/// The snapshot taken when the assignments `vars` are applied to `env`: one
/// entry per distinct name, in order of first occurrence, each recording the
/// value the name has in `env` itself. A repeated name contributes only its
/// first occurrence, so the snapshot always records pre-acquisition values.
pub open spec fn snapshot_of(
    env: Map<Seq<char>, Seq<char>>,
    vars: Seq<(Seq<char>, Option<Seq<char>>)>,
) -> Seq<(Seq<char>, Option<Seq<char>>)> {
    snapshot_rec(env, vars, Set::empty())
}

/// True if no variable name occurs twice in the assignment list.
pub open spec fn distinct_names(vars: Seq<(Seq<char>, Option<Seq<char>>)>) -> bool {
    forall|i: int, j: int| 0 <= i < j < vars.len() ==> vars[i].0 != vars[j].0
}

/// The mathematical value of one owned assignment entry.
pub open spec fn entry_view(entry: (String, Option<String>)) -> (Seq<char>, Option<Seq<char>>) {
    (
        entry.0@,
        match entry.1 {
            Some(v) => Some(v@),
            None => None,
        },
    )
}

/// The mathematical value of an owned assignment list.
pub open spec fn entries_view(entries: Seq<(String, Option<String>)>) -> Seq<
    (Seq<char>, Option<Seq<char>>),
> {
    entries.map_values(|entry: (String, Option<String>)| entry_view(entry))
}

/// Applying one more assignment at the end of a list is the same as applying
/// the list and then the assignment.
proof fn lemma_apply_all_push(
    env: Map<Seq<char>, Seq<char>>,
    vars: Seq<(Seq<char>, Option<Seq<char>>)>,
    entry: (Seq<char>, Option<Seq<char>>),
)
    ensures
        apply_all(env, vars.push(entry)) == apply_one(apply_all(env, vars), entry.0, entry.1),
    decreases vars.len(),
{
    let pushed = vars.push(entry);
    if vars.len() == 0 {
        let env1 = apply_one(env, entry.0, entry.1);
        assert(pushed[0] == entry);
        assert(pushed.skip(1) =~= Seq::<(Seq<char>, Option<Seq<char>>)>::empty());
        assert(apply_all(env, pushed) == apply_all(env1, pushed.skip(1)));
        assert(apply_all(env1, pushed.skip(1)) == env1);
        assert(apply_all(env, vars) == env);
    } else {
        let env1 = apply_one(env, vars[0].0, vars[0].1);
        assert(pushed[0] == vars[0]);
        assert(pushed.skip(1) =~= vars.skip(1).push(entry));
        assert(apply_all(env, pushed) == apply_all(env1, pushed.skip(1)));
        lemma_apply_all_push(env1, vars.skip(1), entry);
        assert(apply_all(env, vars) == apply_all(env1, vars.skip(1)));
    }
}

/// The names of a list are the first name plus the names of the rest.
proof fn lemma_names_unfold(vars: Seq<(Seq<char>, Option<Seq<char>>)>)
    requires
        vars.len() > 0,
    ensures
        names_of(vars) == names_of(vars.skip(1)).insert(vars[0].0),
{
    assert forall|name: Seq<char>| names_of(vars).contains(name) implies names_of(
        vars.skip(1),
    ).insert(vars[0].0).contains(name) by {
        let i = choose|i: int| 0 <= i < vars.len() && (#[trigger] vars[i]).0 == name;
        if i > 0 {
            assert(vars.skip(1)[i - 1] == vars[i]);
            assert(names_of(vars.skip(1)).contains(name));
        }
    }
    assert forall|name: Seq<char>| names_of(vars.skip(1)).insert(vars[0].0).contains(
        name,
    ) implies names_of(vars).contains(name) by {
        if name == vars[0].0 {
            assert((vars[0]).0 == name);
        } else {
            let i = choose|i: int|
                0 <= i < vars.skip(1).len() && (#[trigger] vars.skip(1)[i]).0 == name;
            assert(vars[i + 1] == vars.skip(1)[i]);
            assert((vars[i + 1]).0 == name);
        }
    }
    assert(names_of(vars) =~= names_of(vars.skip(1)).insert(vars[0].0));
}

/// The names of a list with one more assignment at the end are the names of
/// the list plus the extra assignment's name.
proof fn lemma_names_push(vars: Seq<(Seq<char>, Option<Seq<char>>)>, entry: (
    Seq<char>,
    Option<Seq<char>>,
))
    ensures
        names_of(vars.push(entry)) == names_of(vars).insert(entry.0),
{
    let pushed = vars.push(entry);
    assert forall|name: Seq<char>| names_of(pushed).contains(name) implies names_of(vars).insert(
        entry.0,
    ).contains(name) by {
        let i = choose|i: int| 0 <= i < pushed.len() && (#[trigger] pushed[i]).0 == name;
        if i < vars.len() {
            assert(pushed[i] == vars[i]);
            assert((vars[i]).0 == name);
        } else {
            assert(pushed[i] == entry);
        }
    }
    assert forall|name: Seq<char>| names_of(vars).insert(entry.0).contains(name) implies names_of(
        pushed,
    ).contains(name) by {
        if name == entry.0 {
            assert((pushed[vars.len() as int]).0 == name);
        } else {
            let i = choose|i: int| 0 <= i < vars.len() && (#[trigger] vars[i]).0 == name;
            assert((pushed[i]).0 == name);
        }
    }
    assert(names_of(pushed) =~= names_of(vars).insert(entry.0));
}

/// Extending an assignment list by one entry extends its snapshot by one
/// recorded value if the entry's name is new, and changes nothing if the
/// name was already listed or already seen.
proof fn lemma_snapshot_rec_push(
    env: Map<Seq<char>, Seq<char>>,
    vars: Seq<(Seq<char>, Option<Seq<char>>)>,
    entry: (Seq<char>, Option<Seq<char>>),
    seen: Set<Seq<char>>,
)
    ensures
        snapshot_rec(env, vars.push(entry), seen) == if seen.union(names_of(vars)).contains(
            entry.0,
        ) {
            snapshot_rec(env, vars, seen)
        } else {
            snapshot_rec(env, vars, seen).push((entry.0, env_value(env, entry.0)))
        },
    decreases vars.len(),
{
    let pushed = vars.push(entry);
    let none_snap = Seq::<(Seq<char>, Option<Seq<char>>)>::empty();
    if vars.len() == 0 {
        assert(pushed[0] == entry);
        assert(pushed.skip(1) =~= none_snap);
        assert(names_of(vars) =~= Set::<Seq<char>>::empty());
        assert(seen.union(names_of(vars)) =~= seen);
        assert(snapshot_rec(env, vars, seen) == none_snap);
        if seen.contains(entry.0) {
            assert(snapshot_rec(env, pushed, seen) == snapshot_rec(env, pushed.skip(1), seen));
            assert(snapshot_rec(env, pushed.skip(1), seen) == none_snap);
        } else {
            assert(snapshot_rec(env, pushed.skip(1), seen.insert(entry.0)) == none_snap);
            assert(snapshot_rec(env, pushed, seen) == seq![(entry.0, env_value(env, entry.0))]
                + snapshot_rec(env, pushed.skip(1), seen.insert(entry.0)));
            assert(snapshot_rec(env, pushed, seen) =~= snapshot_rec(env, vars, seen).push(
                (entry.0, env_value(env, entry.0)),
            ));
        }
    } else {
        let name0 = vars[0].0;
        assert(pushed[0] == vars[0]);
        assert(pushed.skip(1) =~= vars.skip(1).push(entry));
        assert(pushed.skip(1) == vars.skip(1).push(entry));
        lemma_names_unfold(vars);
        if seen.contains(name0) {
            assert(snapshot_rec(env, pushed, seen) == snapshot_rec(env, pushed.skip(1), seen));
            assert(snapshot_rec(env, vars, seen) == snapshot_rec(env, vars.skip(1), seen));
            lemma_snapshot_rec_push(env, vars.skip(1), entry, seen);
            assert(seen.union(names_of(vars)) =~= seen.union(names_of(vars.skip(1))));
        } else {
            let seen1 = seen.insert(name0);
            let head = seq![(name0, env_value(env, name0))];
            assert(snapshot_rec(env, pushed, seen) == head + snapshot_rec(
                env,
                pushed.skip(1),
                seen1,
            ));
            assert(snapshot_rec(env, vars, seen) == head + snapshot_rec(env, vars.skip(1), seen1));
            lemma_snapshot_rec_push(env, vars.skip(1), entry, seen1);
            assert(seen.union(names_of(vars)) =~= seen1.union(names_of(vars.skip(1))));
            if !seen1.union(names_of(vars.skip(1))).contains(entry.0) {
                assert(head + snapshot_rec(env, vars.skip(1), seen1).push(
                    (entry.0, env_value(env, entry.0)),
                ) =~= (head + snapshot_rec(env, vars.skip(1), seen1)).push(
                    (entry.0, env_value(env, entry.0)),
                ));
            }
        }
    }
}

/// What a snapshot holds: its names are pairwise distinct, each entry
/// records the value its name has in the pre-acquisition environment, and
/// the entries cover exactly the listed names that were not seen before.
proof fn lemma_snapshot_rec_entries(
    env: Map<Seq<char>, Seq<char>>,
    vars: Seq<(Seq<char>, Option<Seq<char>>)>,
    seen: Set<Seq<char>>,
)
    ensures
        distinct_names(snapshot_rec(env, vars, seen)),
        forall|i: int|
            0 <= i < snapshot_rec(env, vars, seen).len() ==> (#[trigger] snapshot_rec(
                env,
                vars,
                seen,
            )[i]).1 == env_value(env, snapshot_rec(env, vars, seen)[i].0),
        forall|i: int|
            0 <= i < snapshot_rec(env, vars, seen).len() ==> names_of(vars).contains(
                (#[trigger] snapshot_rec(env, vars, seen)[i]).0,
            ) && !seen.contains(snapshot_rec(env, vars, seen)[i].0),
        forall|name: Seq<char>|
            names_of(vars).contains(name) && !seen.contains(name) ==> exists|i: int|
                0 <= i < snapshot_rec(env, vars, seen).len() && (#[trigger] snapshot_rec(
                    env,
                    vars,
                    seen,
                )[i]).0 == name,
    decreases vars.len(),
{
    let snap = snapshot_rec(env, vars, seen);
    if vars.len() == 0 {
        assert forall|name: Seq<char>| !(names_of(vars).contains(name) && !seen.contains(
            name,
        )) by {
            if names_of(vars).contains(name) {
                let i = choose|i: int| 0 <= i < vars.len() && (#[trigger] vars[i]).0 == name;
            }
        }
    } else {
        let name0 = vars[0].0;
        let rest = vars.skip(1);
        lemma_names_unfold(vars);
        if seen.contains(name0) {
            lemma_snapshot_rec_entries(env, rest, seen);
            assert forall|name: Seq<char>|
                names_of(vars).contains(name) && !seen.contains(name) implies exists|i: int|
                0 <= i < snap.len() && (#[trigger] snap[i]).0 == name by {
                assert(names_of(rest).contains(name));
            }
        } else {
            let seen1 = seen.insert(name0);
            let tail = snapshot_rec(env, rest, seen1);
            lemma_snapshot_rec_entries(env, rest, seen1);
            assert(snap.len() == 1 + tail.len());
            assert(snap[0] == (name0, env_value(env, name0)));
            assert(forall|i: int| 1 <= i < snap.len() ==> #[trigger] snap[i] == tail[i - 1]);
            assert forall|i: int, j: int| 0 <= i < j < snap.len() implies snap[i].0
                != snap[j].0 by {
                if i == 0 {
                    assert(!seen1.contains(tail[j - 1].0));
                } else {
                    assert(tail[i - 1].0 != tail[j - 1].0);
                }
            }
            assert forall|name: Seq<char>|
                names_of(vars).contains(name) && !seen.contains(name) implies exists|i: int|
                0 <= i < snap.len() && (#[trigger] snap[i]).0 == name by {
                if name == name0 {
                    assert((snap[0]).0 == name);
                } else {
                    assert(names_of(rest).contains(name) && !seen1.contains(name));
                    let i = choose|i: int| 0 <= i < tail.len() && (#[trigger] tail[i]).0 == name;
                    assert((snap[i + 1]).0 == name);
                }
            }
        }
    }
}

/// A list of assignments that never touches a name leaves that name's value
/// (or its absence) alone — for every request, even one that repeats other
/// names.
pub proof fn lemma_untouched_name_preserved(
    env: Map<Seq<char>, Seq<char>>,
    vars: Seq<(Seq<char>, Option<Seq<char>>)>,
    name: Seq<char>,
)
    requires
        forall|i: int| 0 <= i < vars.len() ==> (#[trigger] vars[i]).0 != name,
    ensures
        env_value(apply_all(env, vars), name) == env_value(env, name),
    decreases vars.len(),
{
    if vars.len() > 0 {
        let env1 = apply_one(env, vars[0].0, vars[0].1);
        assert(forall|i: int|
            0 <= i < vars.skip(1).len() ==> (#[trigger] vars.skip(1)[i]).0 != name);
        lemma_untouched_name_preserved(env1, vars.skip(1), name);
        assert(env_value(env1, name) == env_value(env, name));
    }
}

/// In a list with pairwise distinct names, the entry for a name decides that
/// name's final value.
proof fn lemma_apply_all_entry_value(
    env: Map<Seq<char>, Seq<char>>,
    vars: Seq<(Seq<char>, Option<Seq<char>>)>,
    k: int,
)
    requires
        distinct_names(vars),
        0 <= k < vars.len(),
    ensures
        env_value(apply_all(env, vars), vars[k].0) == vars[k].1,
    decreases vars.len(),
{
    let env1 = apply_one(env, vars[0].0, vars[0].1);
    if k == 0 {
        assert(env_value(env1, vars[0].0) == vars[0].1);
        assert forall|i: int|
            0 <= i < vars.skip(1).len() implies (#[trigger] vars.skip(1)[i]).0 != vars[0].0 by {
            assert(vars.skip(1)[i] == vars[i + 1]);
        }
        lemma_untouched_name_preserved(env1, vars.skip(1), vars[0].0);
    } else {
        assert(forall|i: int| 0 <= i < vars.skip(1).len() ==> #[trigger] vars.skip(1)[i] == vars[
            i + 1
        ]);
        assert(distinct_names(vars.skip(1)));
        lemma_apply_all_entry_value(env1, vars.skip(1), k - 1);
        assert(vars.skip(1)[k - 1] == vars[k]);
    }
}

/// One variable's value after acquisition and restoration equals its value
/// before acquisition.
proof fn lemma_restore_pointwise(
    env: Map<Seq<char>, Seq<char>>,
    vars: Seq<(Seq<char>, Option<Seq<char>>)>,
    name: Seq<char>,
)
    ensures
        env_value(apply_all(apply_all(env, vars), snapshot_of(env, vars)), name) == env_value(
            env,
            name,
        ),
{
    let fin = apply_all(env, vars);
    let snap = snapshot_of(env, vars);
    lemma_snapshot_rec_entries(env, vars, Set::empty());
    if names_of(vars).contains(name) {
        assert(!Set::<Seq<char>>::empty().contains(name));
        assert(exists|k: int| 0 <= k < snap.len() && (#[trigger] snap[k]).0 == name);
        let k = choose|k: int| 0 <= k < snap.len() && (#[trigger] snap[k]).0 == name;
        assert(snap[k].1 == env_value(env, name));
        lemma_apply_all_entry_value(fin, snap, k);
    } else {
        assert forall|i: int| 0 <= i < vars.len() implies (#[trigger] vars[i]).0 != name by {
            if vars[i].0 == name {
                assert(names_of(vars).contains(name));
            }
        }
        lemma_untouched_name_preserved(env, vars, name);
        assert forall|i: int| 0 <= i < snap.len() implies (#[trigger] snap[i]).0 != name by {
            assert(names_of(vars).contains(snap[i].0));
        }
        lemma_untouched_name_preserved(fin, snap, name);
    }
}

/// The restore invariant: applying a list of assignments — any list, with or
/// without repeated names — and then applying the snapshot that was taken
/// for it returns the environment to exactly its initial state. Every
/// variable touched goes back to its prior value or prior absence, and no
/// other variable changes.
pub proof fn lemma_restore_invariant(
    env: Map<Seq<char>, Seq<char>>,
    vars: Seq<(Seq<char>, Option<Seq<char>>)>,
)
    ensures
        apply_all(apply_all(env, vars), snapshot_of(env, vars)) == env,
{
    let restored = apply_all(apply_all(env, vars), snapshot_of(env, vars));
    assert forall|name: Seq<char>|
        restored.dom().contains(name) == env.dom().contains(name) by {
        lemma_restore_pointwise(env, vars, name);
    }
    assert(restored.dom() =~= env.dom());
    assert forall|name: Seq<char>| env.dom().contains(name) implies restored[name]
        == env[name] by {
        lemma_restore_pointwise(env, vars, name);
    }
    assert(restored =~= env);
}

/// Idempotent unset: setting a variable that is currently unset and then
/// applying the snapshot leaves the variable unset.
pub proof fn lemma_unset_round_trip(
    env: Map<Seq<char>, Seq<char>>,
    name: Seq<char>,
    value: Seq<char>,
)
    requires
        !env.contains_key(name),
    ensures
        ({
            let vars = seq![(name, Some(value))];
            !apply_all(apply_all(env, vars), snapshot_of(env, vars)).contains_key(name)
        }),
{
    lemma_restore_invariant(env, seq![(name, Some(value))]);
}

/// Applies each requested assignment to `table` in input order and records,
/// for each distinct variable name, the value it had before acquisition.
/// Returns the guard that owns the recorded snapshot; releasing it restores
/// the table.
///
/// A requested value of `Some(v)` sets the variable to `v`; `None` unsets
/// it. A name that occurs several times is applied once per occurrence, in
/// input order, so the last occurrence controls the value the table holds
/// while the guard is alive; the snapshot keeps only the first occurrence's
/// prior value, so restoration always returns to the pre-acquisition state.
pub fn lock_env(table: &mut EnvTable, variables: &Vec<(String, Option<String>)>) -> (guard:
    EnvGuard)
    ensures
        final(table)@ == apply_all(old(table)@, entries_view(variables@)),
        guard.snapshot() == snapshot_of(old(table)@, entries_view(variables@)),
{
    let ghost env0 = table@;
    let ghost goal = entries_view(variables@);
    let mut previous_values: Vec<(String, Option<String>)> = Vec::new();
    let mut recorded = vstd::hash_set::StringHashSet::new();
    let mut i: usize = 0;
    while i < variables.len()
        invariant
            i <= variables.len(),
            goal == entries_view(variables@),
            goal.len() == variables@.len(),
            table@ == apply_all(env0, goal.take(i as int)),
            entries_view(previous_values@) == snapshot_of(env0, goal.take(i as int)),
            recorded@ == names_of(goal.take(i as int)),
        decreases variables.len() - i,
    {
        let ghost taken = goal.take(i as int);
        let name: &String = &variables[i].0;
        if !recorded.contains(name.as_str()) {
            proof {
                assert(!names_of(taken).contains(name@));
                assert forall|j: int| 0 <= j < taken.len() implies (#[trigger] taken[j]).0
                    != name@ by {
                    if taken[j].0 == name@ {
                        assert(names_of(taken).contains(name@));
                    }
                }
                lemma_untouched_name_preserved(env0, taken, name@);
            }
            let previous: Option<String> = match table.get(name.as_str()) {
                Some(v) => Some(v.clone()),
                None => None,
            };
            previous_values.push((name.clone(), previous));
            recorded.insert(name.clone());
        }
        match &variables[i].1 {
            Some(value) => table.set_var(name.clone(), value.clone()),
            None => table.remove_var(name.as_str()),
        }
        proof {
            lemma_apply_all_push(env0, taken, goal[i as int]);
            lemma_snapshot_rec_push(env0, taken, goal[i as int], Set::empty());
            lemma_names_push(taken, goal[i as int]);
            assert(Set::<Seq<char>>::empty().union(names_of(taken)) =~= names_of(taken));
            assert(goal.take(i + 1) =~= taken.push(goal[i as int]));
            assert(recorded@ =~= names_of(goal.take(i + 1)));
            assert(entries_view(previous_values@) =~= snapshot_of(env0, goal.take(i + 1)));
        }
        i = i + 1;
    }
    proof {
        assert(goal.take(variables@.len() as int) =~= goal);
    }
    EnvGuard { previous_values }
}

/// A guard that owns the snapshot taken by [`lock_env`]: one entry per
/// distinct requested name, recording its pre-acquisition value. It stands
/// for exclusive access to the table for as long as it is held; releasing it
/// restores every recorded variable to its recorded value. A guard can be
/// moved but not copied or cloned: it represents unique ownership of the
/// acquisition.
pub struct EnvGuard {
    previous_values: Vec<(String, Option<String>)>,
}

impl EnvGuard {
    /// The snapshot this guard owns, as a sequence of (name, prior value)
    /// pairs; a prior value of `None` records a variable that was unset.
    pub closed spec fn snapshot(&self) -> Seq<(Seq<char>, Option<Seq<char>>)> {
        entries_view(self.previous_values@)
    }

    /// The recorded (name, prior value) pairs, in the order they were taken.
    pub fn previous_values(&self) -> (entries: &Vec<(String, Option<String>)>)
        ensures
            entries_view(entries@) == self.snapshot(),
    {
        &self.previous_values
    }

    /// Plays the snapshot back onto `table`, in the order it was recorded:
    /// each variable is set back to its recorded value, or unset where it
    /// was recorded as unset. Consumes the guard, so restoration happens at
    /// most once per guard.
    pub fn release(self, table: &mut EnvTable)
        ensures
            final(table)@ == apply_all(old(table)@, self.snapshot()),
    {
        let ghost env0 = table@;
        let ghost snap = self.snapshot();
        let previous_values = self.previous_values;
        let mut i: usize = 0;
        while i < previous_values.len()
            invariant
                i <= previous_values.len(),
                snap == entries_view(previous_values@),
                snap.len() == previous_values@.len(),
                table@ == apply_all(env0, snap.take(i as int)),
            decreases previous_values.len() - i,
        {
            let name: &String = &previous_values[i].0;
            match &previous_values[i].1 {
                Some(value) => table.set_var(name.clone(), value.clone()),
                None => table.remove_var(name.as_str()),
            }
            proof {
                lemma_apply_all_push(env0, snap.take(i as int), snap[i as int]);
                assert(snap.take(i + 1) =~= snap.take(i as int).push(snap[i as int]));
            }
            i = i + 1;
        }
        proof {
            assert(snap.take(previous_values@.len() as int) =~= snap);
        }
    }
}

} // verus!
