//! Graphs of named roles: what makes one valid, and the first thing wrong with one that is not.

use vstd::prelude::*;
use vstd::string::*;

use crate::collections::NameSet;
use crate::text::{concat2, concat3, concat4, is_blank, same_text};

verus! {

/// A role of a graph: its name and the names of the roles that it waits for.
#[derive(Clone, Copy)]
pub struct RoleNode<'a> {
    pub name: &'a String,
    pub depends_on: &'a Vec<String>,
}

pub struct NodeModel {
    pub name: Seq<char>,
    pub depends_on: Seq<Seq<char>>,
}

impl<'a> View for RoleNode<'a> {
    type V = NodeModel;

    open spec fn view(&self) -> NodeModel {
        NodeModel { name: self.name@, depends_on: crate::text::views(self.depends_on@) }
    }
}

/// One of the first `k` roles has the name.
pub open spec fn named_before(roles: Seq<NodeModel>, k: int, name: Seq<char>) -> bool {
    exists|i: int| 0 <= i < k && (#[trigger] roles[i]).name == name
}

pub open spec fn named(roles: Seq<NodeModel>, name: Seq<char>) -> bool {
    named_before(roles, roles.len() as int, name)
}

/// The item is among the first `k` of a list.
pub open spec fn listed_before(list: Seq<Seq<char>>, k: int, item: Seq<char>) -> bool {
    exists|i: int| 0 <= i < k && #[trigger] list[i] == item
}

/// What is wrong with the names of the roles from `i` on.
pub open spec fn name_error(roles: Seq<NodeModel>, i: int) -> Option<Seq<char>>
    decreases roles.len() - i,
{
    if i < 0 || i >= roles.len() {
        None
    } else if crate::text::blank(roles[i].name) {
        Some("role names cannot be empty"@)
    } else if named_before(roles, i, roles[i].name) {
        Some("duplicate role "@ + roles[i].name)
    } else {
        name_error(roles, i + 1)
    }
}

/// What is wrong with the dependencies of one role from `j` on.
pub open spec fn dependency_error(roles: Seq<NodeModel>, role: NodeModel, j: int) -> Option<Seq<char>>
    decreases role.depends_on.len() - j,
{
    if j < 0 || j >= role.depends_on.len() {
        None
    } else if !named(roles, role.depends_on[j]) {
        Some("role "@ + role.name + " depends on unknown role "@ + role.depends_on[j])
    } else if listed_before(role.depends_on, j, role.depends_on[j]) {
        Some("role "@ + role.name + " lists dependency "@ + role.depends_on[j] + " more than once"@)
    } else {
        dependency_error(roles, role, j + 1)
    }
}

/// What is wrong with the dependencies of the roles from `i` on.
pub open spec fn dependencies_error(roles: Seq<NodeModel>, i: int) -> Option<Seq<char>>
    decreases roles.len() - i,
{
    if i < 0 || i >= roles.len() {
        None
    } else {
        match dependency_error(roles, roles[i], 0) {
            Some(message) => Some(message),
            None => dependencies_error(roles, i + 1),
        }
    }
}

/// What is wrong with the declared outputs from `i` on.
pub open spec fn output_error(roles: Seq<NodeModel>, outputs: Seq<Seq<char>>, i: int) -> Option<Seq<char>>
    decreases outputs.len() - i,
{
    if i < 0 || i >= outputs.len() {
        None
    } else if !named(roles, outputs[i]) {
        Some("unknown output role "@ + outputs[i])
    } else if listed_before(outputs, i, outputs[i]) {
        Some("output role "@ + outputs[i] + " is listed more than once"@)
    } else {
        output_error(roles, outputs, i + 1)
    }
}

/// The rank decreases along every dependency.
pub open spec fn ranked(roles: Seq<NodeModel>, rank: spec_fn(Seq<char>) -> nat) -> bool {
    forall|i: int, j: int|
        #![trigger roles[i].depends_on[j]]
        0 <= i < roles.len() && 0 <= j < roles[i].depends_on.len() ==> rank(roles[i].depends_on[j])
            < rank(roles[i].name)
}

/// The roles can be ranked so that every dependency comes before the role that waits for it.
pub open spec fn acyclic(roles: Seq<NodeModel>) -> bool {
    exists|rank: spec_fn(Seq<char>) -> nat| ranked(roles, rank)
}

/// The first thing wrong with a role graph.
pub open spec fn graph_error(roles: Seq<NodeModel>, outputs: Seq<Seq<char>>) -> Option<Seq<char>> {
    if roles.len() == 0 {
        Some("at least one role is required"@)
    } else if outputs.len() == 0 {
        Some("at least one output role is required"@)
    } else if name_error(roles, 0) is Some {
        name_error(roles, 0)
    } else if dependencies_error(roles, 0) is Some {
        dependencies_error(roles, 0)
    } else if output_error(roles, outputs, 0) is Some {
        output_error(roles, outputs, 0)
    } else if !acyclic(roles) {
        Some("role dependency graph contains a cycle"@)
    } else {
        None
    }
}

/// A valid role graph, said at once.
pub open spec fn well_formed(roles: Seq<NodeModel>, outputs: Seq<Seq<char>>) -> bool {
    &&& roles.len() > 0
    &&& outputs.len() > 0
    &&& forall|i: int| 0 <= i < roles.len() ==> !crate::text::blank((#[trigger] roles[i]).name)
    &&& forall|i: int, j: int|
        0 <= i < j < roles.len() ==> (#[trigger] roles[i]).name != (#[trigger] roles[j]).name
    &&& forall|i: int, j: int|
        #![trigger roles[i].depends_on[j]]
        0 <= i < roles.len() && 0 <= j < roles[i].depends_on.len() ==> named(
            roles,
            roles[i].depends_on[j],
        )
    &&& forall|i: int|
        0 <= i < roles.len() ==> (#[trigger] roles[i]).depends_on.no_duplicates()
    &&& forall|i: int| 0 <= i < outputs.len() ==> named(roles, #[trigger] outputs[i])
    &&& outputs.no_duplicates()
    &&& acyclic(roles)
}

/// A result with its message as a plain sequence.
pub open spec fn plain_error(r: Result<(), String>) -> Option<Seq<char>> {
    match r {
        Ok(_) => None,
        Err(message) => Some(message@),
    }
}

fn is_named_before(roles: &Vec<RoleNode>, k: usize, name: &str) -> (r: bool)
    requires
        k <= roles@.len(),
    ensures
        r == named_before(crate::text::views(roles@), k as int, name@),
{
    let ghost model = crate::text::views(roles@);
    let mut i: usize = 0;
    while i < k
        invariant
            i <= k <= roles@.len(),
            model == crate::text::views(roles@),
            forall|j: int| 0 <= j < i ==> (#[trigger] model[j]).name != name@,
        decreases k - i,
    {
        assert(model[i as int].name == roles@[i as int].name@);
        if same_text(roles[i].name.as_str(), name) {
            return true;
        }
        i = i + 1;
    }
    false
}

fn is_listed_before(list: &Vec<String>, k: usize, item: &str) -> (r: bool)
    requires
        k <= list@.len(),
    ensures
        r == listed_before(crate::text::views(list@), k as int, item@),
{
    let ghost model = crate::text::views(list@);
    let mut i: usize = 0;
    while i < k
        invariant
            i <= k <= list@.len(),
            model == crate::text::views(list@),
            forall|j: int| 0 <= j < i ==> #[trigger] model[j] != item@,
        decreases k - i,
    {
        assert(model[i as int] == list@[i as int]@);
        if same_text(list[i].as_str(), item) {
            return true;
        }
        i = i + 1;
    }
    false
}

fn check_names(roles: &Vec<RoleNode>) -> (r: Result<(), String>)
    ensures
        plain_error(r) == name_error(crate::text::views(roles@), 0),
{
    let ghost model = crate::text::views(roles@);
    let mut i: usize = 0;
    while i < roles.len()
        invariant
            i <= roles@.len(),
            model == crate::text::views(roles@),
            name_error(model, 0) == name_error(model, i as int),
        decreases roles@.len() - i,
    {
        let name = roles[i].name.as_str();
        assert(model[i as int].name == name@);
        if is_blank(name) {
            return Err("role names cannot be empty".to_owned());
        }
        if is_named_before(roles, i, name) {
            return Err(concat2("duplicate role ", name));
        }
        i = i + 1;
    }
    Ok(())
}

fn check_role_dependencies(roles: &Vec<RoleNode>, role: &RoleNode) -> (r: Result<(), String>)
    ensures
        plain_error(r) == dependency_error(crate::text::views(roles@), role@, 0),
{
    let ghost model = crate::text::views(roles@);
    let name = role.name.as_str();
    let mut j: usize = 0;
    while j < role.depends_on.len()
        invariant
            j <= role.depends_on@.len(),
            model == crate::text::views(roles@),
            name@ == role@.name,
            dependency_error(model, role@, 0) == dependency_error(model, role@, j as int),
        decreases role.depends_on@.len() - j,
    {
        let dependency = role.depends_on[j].as_str();
        assert(role@.depends_on[j as int] == dependency@);
        if !is_named_before(roles, roles.len(), dependency) {
            return Err(concat4("role ", name, " depends on unknown role ", dependency));
        }
        if is_listed_before(role.depends_on, j, dependency) {
            let text = concat4("role ", name, " lists dependency ", dependency);
            return Err(text.concat(" more than once"));
        }
        j = j + 1;
    }
    Ok(())
}

fn check_dependencies(roles: &Vec<RoleNode>) -> (r: Result<(), String>)
    ensures
        plain_error(r) == dependencies_error(crate::text::views(roles@), 0),
{
    let ghost model = crate::text::views(roles@);
    let mut i: usize = 0;
    while i < roles.len()
        invariant
            i <= roles@.len(),
            model == crate::text::views(roles@),
            dependencies_error(model, 0) == dependencies_error(model, i as int),
        decreases roles@.len() - i,
    {
        assert(model[i as int] == roles@[i as int]@);
        match check_role_dependencies(roles, &roles[i]) {
            Ok(()) => {},
            Err(message) => {
                return Err(message);
            },
        }
        i = i + 1;
    }
    Ok(())
}

fn check_outputs(roles: &Vec<RoleNode>, outputs: &Vec<String>) -> (r: Result<(), String>)
    ensures
        plain_error(r) == output_error(
            crate::text::views(roles@),
            crate::text::views(outputs@),
            0,
        ),
{
    let ghost model = crate::text::views(roles@);
    let ghost listed = crate::text::views(outputs@);
    let mut i: usize = 0;
    while i < outputs.len()
        invariant
            i <= outputs@.len(),
            model == crate::text::views(roles@),
            listed == crate::text::views(outputs@),
            output_error(model, listed, 0) == output_error(model, listed, i as int),
        decreases outputs@.len() - i,
    {
        let output = outputs[i].as_str();
        assert(listed[i as int] == output@);
        if !is_named_before(roles, roles.len(), output) {
            return Err(concat2("unknown output role ", output));
        }
        if is_listed_before(outputs, i, output) {
            return Err(concat3("output role ", output, " is listed more than once"));
        }
        i = i + 1;
    }
    Ok(())
}

/// The resolved roles are ranked by the order in which they were resolved.
spec fn resolved_in_order(roles: Seq<NodeModel>, rank: Map<Seq<char>, nat>, count: nat) -> bool {
    &&& forall|name: Seq<char>| #[trigger] rank.contains_key(name) ==> rank[name] < count
    &&& forall|i: int, j: int|
        #![trigger roles[i].depends_on[j]]
        0 <= i < roles.len() && 0 <= j < roles[i].depends_on.len() && rank.contains_key(roles[i].name)
            ==> rank.contains_key(roles[i].depends_on[j]) && rank[roles[i].depends_on[j]]
            < rank[roles[i].name]
}

/// A role that waits for a role outside of `resolved`.
spec fn waits(role: NodeModel, resolved: Set<Seq<char>>) -> bool {
    exists|j: int| 0 <= j < role.depends_on.len() && !resolved.contains(#[trigger] role.depends_on[j])
}

/// Where every role outside of `resolved` waits for another one, a ranking shows that there is none.
proof fn lemma_all_resolved(
    roles: Seq<NodeModel>,
    resolved: Set<Seq<char>>,
    rank: spec_fn(Seq<char>) -> nat,
    i: int,
)
    requires
        ranked(roles, rank),
        0 <= i < roles.len(),
        forall|k: int|
            0 <= k < roles.len() && !resolved.contains((#[trigger] roles[k]).name) ==> waits(
                roles[k],
                resolved,
            ),
        forall|k: int, j: int|
            #![trigger roles[k].depends_on[j]]
            0 <= k < roles.len() && 0 <= j < roles[k].depends_on.len() ==> named(
                roles,
                roles[k].depends_on[j],
            ),
    ensures
        resolved.contains(roles[i].name),
    decreases rank(roles[i].name),
{
    if !resolved.contains(roles[i].name) {
        let j = choose|j: int|
            0 <= j < roles[i].depends_on.len() && !resolved.contains(#[trigger] roles[i].depends_on[j]);
        let dependency = roles[i].depends_on[j];
        assert(named(roles, dependency));
        let k = choose|k: int| 0 <= k < roles.len() && (#[trigger] roles[k]).name == dependency;
        lemma_all_resolved(roles, resolved, rank, k);
    }
}

/// In a graph that can be ranked, some role outside of `resolved` waits for none of the others.
pub proof fn lemma_first_unresolved(roles: Seq<NodeModel>, resolved: Set<Seq<char>>, i: int) -> (first: int)
    requires
        acyclic(roles),
        0 <= i < roles.len(),
        !resolved.contains(roles[i].name),
        forall|k: int, j: int|
            #![trigger roles[k].depends_on[j]]
            0 <= k < roles.len() && 0 <= j < roles[k].depends_on.len() ==> named(
                roles,
                roles[k].depends_on[j],
            ),
    ensures
        0 <= first < roles.len(),
        !resolved.contains(roles[first].name),
        forall|j: int|
            0 <= j < roles[first].depends_on.len() ==> resolved.contains(
                #[trigger] roles[first].depends_on[j],
            ),
{
    let rank = choose|rank: spec_fn(Seq<char>) -> nat| ranked(roles, rank);
    if forall|k: int|
        0 <= k < roles.len() && !resolved.contains((#[trigger] roles[k]).name) ==> waits(
            roles[k],
            resolved,
        ) {
        lemma_all_resolved(roles, resolved, rank, i);
        i
    } else {
        choose|k: int|
            0 <= k < roles.len() && !resolved.contains((#[trigger] roles[k]).name) && !waits(
                roles[k],
                resolved,
            )
    }
}

fn is_waiting(role: &RoleNode, resolved: &NameSet) -> (r: bool)
    ensures
        r == waits(role@, resolved@),
{
    let mut j: usize = 0;
    while j < role.depends_on.len()
        invariant
            j <= role.depends_on@.len(),
            forall|k: int| 0 <= k < j ==> resolved@.contains(#[trigger] role@.depends_on[k]),
        decreases role.depends_on@.len() - j,
    {
        assert(role@.depends_on[j as int] == role.depends_on@[j as int]@);
        if !resolved.contains(role.depends_on[j].as_str()) {
            return true;
        }
        j = j + 1;
    }
    false
}

/// Resolves the roles in dependency order, as far as that goes.
fn is_acyclic(roles: &Vec<RoleNode>) -> (r: bool)
    requires
        forall|i: int, j: int|
            0 <= i < j < roles@.len() ==> (#[trigger] crate::text::views(roles@)[i]).name != (
            #[trigger] crate::text::views(roles@)[j]).name,
        forall|k: int, j: int|
            #![trigger crate::text::views(roles@)[k].depends_on[j]]
            0 <= k < roles@.len() && 0 <= j < crate::text::views(roles@)[k].depends_on.len() ==> named(
                crate::text::views(roles@),
                crate::text::views(roles@)[k].depends_on[j],
            ),
    ensures
        r == acyclic(crate::text::views(roles@)),
{
    let ghost model = crate::text::views(roles@);
    let mut resolved = NameSet::new();
    let ghost mut rank: Map<Seq<char>, nat> = Map::empty();
    let ghost mut count: nat = 0;
    let mut remaining: Vec<usize> = Vec::new();
    let mut n: usize = 0;
    while n < roles.len()
        invariant
            n <= roles@.len(),
            remaining@.len() == n,
            forall|k: int| 0 <= k < n ==> #[trigger] remaining@[k] == k,
        decreases roles@.len() - n,
    {
        remaining.push(n);
        n = n + 1;
    }
    proof {
        assert forall|i: int| 0 <= i < model.len() implies resolved@.contains((#[trigger] model[i]).name)
            || remaining@.contains(i as usize) by {
            assert(remaining@[i] == i);
        }
    }
    loop
        invariant
            model == crate::text::views(roles@),
            n == model.len(),
            resolved@ == rank.dom(),
            resolved_in_order(model, rank, count),
            forall|k: int| 0 <= k < remaining@.len() ==> #[trigger] remaining@[k] < roles@.len(),
            forall|i: int|
                0 <= i < model.len() ==> resolved@.contains((#[trigger] model[i]).name)
                    || remaining@.contains(i as usize),
            forall|i: int, j: int|
                0 <= i < j < model.len() ==> (#[trigger] model[i]).name != (#[trigger] model[j]).name,
            forall|k: int, j: int|
                #![trigger model[k].depends_on[j]]
                0 <= k < model.len() && 0 <= j < model[k].depends_on.len() ==> named(
                    model,
                    model[k].depends_on[j],
                ),
        decreases remaining@.len(),
    {
        let mut next: Vec<usize> = Vec::new();
        let ghost start = resolved@;
        let mut k: usize = 0;
        assert(remaining@.skip(0) =~= remaining@);
        while k < remaining.len()
            invariant
                k <= remaining@.len(),
                model == crate::text::views(roles@),
                n == model.len(),
                resolved@ == rank.dom(),
                resolved_in_order(model, rank, count),
                forall|m: int| 0 <= m < remaining@.len() ==> #[trigger] remaining@[m] < roles@.len(),
                forall|m: int| 0 <= m < next@.len() ==> #[trigger] next@[m] < roles@.len(),
                next@.len() <= k,
                forall|i: int, j: int|
                    0 <= i < j < model.len() ==> (#[trigger] model[i]).name != (#[trigger] model[j]).name,
                forall|i: int|
                    0 <= i < model.len() ==> resolved@.contains((#[trigger] model[i]).name)
                        || next@.contains(i as usize) || remaining@.skip(k as int).contains(i as usize),
                next@.len() == k ==> resolved@ == start && forall|m: int|
                    0 <= m < k ==> waits(model[#[trigger] remaining@[m] as int], start),
            decreases remaining@.len() - k,
        {
            let index: usize = remaining[k];
            let role = roles[index];
            assert(model[index as int] == role@);
            let ghost before = next@;
            let ghost known = resolved@;
            let waiting = is_waiting(&role, &resolved);
            if waiting {
                next.push(index);
            } else {
                resolved.insert(role.name.clone());
                proof {
                    let name = role@.name;
                    let older = rank;
                    if !older.contains_key(name) {
                        rank = older.insert(name, count);
                        count = count + 1;
                    }
                    assert(resolved@ =~= rank.dom());
                    assert forall|i: int, j: int|
                        #![trigger model[i].depends_on[j]]
                        0 <= i < model.len() && 0 <= j < model[i].depends_on.len() && rank.contains_key(
                            model[i].name,
                        ) implies rank.contains_key(model[i].depends_on[j])
                        && rank[model[i].depends_on[j]] < rank[model[i].name] by {
                        if model[i].name == name {
                            assert(model[i] == role@);
                            assert(known.contains(role@.depends_on[j]));
                        }
                    }
                }
            }
            proof {
                assert forall|i: int| 0 <= i < model.len() implies resolved@.contains(
                    (#[trigger] model[i]).name,
                ) || next@.contains(i as usize) || remaining@.skip(k + 1).contains(i as usize) by {
                    if known.contains(model[i].name) {
                    } else if before.contains(i as usize) {
                        let m = choose|m: int| 0 <= m < before.len() && before[m] == i as usize;
                        assert(next@[m] == i as usize);
                    } else {
                        let rest = remaining@.skip(k as int);
                        let m = choose|m: int| 0 <= m < rest.len() && rest[m] == i as usize;
                        if m == 0 {
                            assert(index == i);
                            if waiting {
                                assert(next@[before.len() as int] == index);
                            }
                        } else {
                            assert(remaining@.skip(k + 1)[m - 1] == i as usize);
                        }
                    }
                }
            }
            k = k + 1;
        }
        assert(remaining@.skip(remaining@.len() as int).len() == 0);
        if next.len() == 0 {
            proof {
                let order = |name: Seq<char>| rank[name];
                assert forall|i: int, j: int|
                    #![trigger model[i].depends_on[j]]
                    0 <= i < model.len() && 0 <= j < model[i].depends_on.len() implies order(
                    model[i].depends_on[j],
                ) < order(model[i].name) by {
                    assert(resolved@.contains(model[i].name));
                }
                assert(ranked(model, order));
            }
            return true;
        }
        if next.len() == remaining.len() {
            proof {
                if acyclic(model) {
                    let order = choose|order: spec_fn(Seq<char>) -> nat| ranked(model, order);
                    assert forall|i: int|
                        0 <= i < model.len() && !resolved@.contains((#[trigger] model[i]).name) implies waits(
                        model[i],
                        resolved@,
                    ) by {
                        assert(remaining@.contains(i as usize));
                        let m = choose|m: int| 0 <= m < remaining@.len() && remaining@[m] == i as usize;
                        assert(waits(model[remaining@[m] as int], start));
                    }
                    let first = model[remaining@[0] as int];
                    assert(waits(first, start));
                    let j = choose|j: int|
                        0 <= j < first.depends_on.len() && !start.contains(#[trigger] first.depends_on[j]);
                    assert(named(model, model[remaining@[0] as int].depends_on[j]));
                    let i = choose|i: int|
                        0 <= i < model.len() && (#[trigger] model[i]).name == first.depends_on[j];
                    lemma_all_resolved(model, resolved@, order, i);
                }
            }
            return false;
        }
        remaining = next;
    }
}

proof fn lemma_name_error(roles: Seq<NodeModel>, i: int)
    requires
        0 <= i <= roles.len(),
    ensures
        name_error(roles, i) is None <==> forall|k: int|
            i <= k < roles.len() ==> !crate::text::blank((#[trigger] roles[k]).name) && !named_before(
                roles,
                k,
                roles[k].name,
            ),
    decreases roles.len() - i,
{
    if i < roles.len() {
        lemma_name_error(roles, i + 1);
    }
}

/// Names are all different exactly if none of them occurs before.
proof fn lemma_distinct_names(roles: Seq<NodeModel>)
    ensures
        (forall|k: int|
            0 <= k < roles.len() ==> !named_before(roles, k, (#[trigger] roles[k]).name)) <==> (forall|
            i: int,
            j: int,
        |
            0 <= i < j < roles.len() ==> (#[trigger] roles[i]).name != (#[trigger] roles[j]).name),
{
    if forall|k: int| 0 <= k < roles.len() ==> !named_before(roles, k, (#[trigger] roles[k]).name) {
        assert forall|i: int, j: int| 0 <= i < j < roles.len() implies (#[trigger] roles[i]).name != (
        #[trigger] roles[j]).name by {
            assert(!named_before(roles, j, roles[j].name));
        }
    }
}

proof fn lemma_dependency_error(roles: Seq<NodeModel>, role: NodeModel, j: int)
    requires
        0 <= j <= role.depends_on.len(),
    ensures
        dependency_error(roles, role, j) is None <==> forall|k: int|
            j <= k < role.depends_on.len() ==> named(roles, #[trigger] role.depends_on[k])
                && !listed_before(role.depends_on, k, role.depends_on[k]),
    decreases role.depends_on.len() - j,
{
    if j < role.depends_on.len() {
        lemma_dependency_error(roles, role, j + 1);
    }
}

proof fn lemma_distinct_items(list: Seq<Seq<char>>)
    ensures
        (forall|k: int| 0 <= k < list.len() ==> !listed_before(list, k, #[trigger] list[k]))
            <==> list.no_duplicates(),
{
    if forall|k: int| 0 <= k < list.len() ==> !listed_before(list, k, #[trigger] list[k]) {
        assert forall|i: int, j: int| 0 <= i < list.len() && 0 <= j < list.len() && i != j implies list[i]
            != list[j] by {
            if i < j {
                assert(!listed_before(list, j, list[j]));
            } else {
                assert(!listed_before(list, i, list[i]));
            }
        }
    }
}

proof fn lemma_dependencies_error(roles: Seq<NodeModel>, i: int)
    requires
        0 <= i <= roles.len(),
    ensures
        dependencies_error(roles, i) is None <==> forall|k: int|
            i <= k < roles.len() ==> dependency_error(roles, #[trigger] roles[k], 0) is None,
    decreases roles.len() - i,
{
    if i < roles.len() {
        lemma_dependencies_error(roles, i + 1);
    }
}

proof fn lemma_output_error(roles: Seq<NodeModel>, outputs: Seq<Seq<char>>, i: int)
    requires
        0 <= i <= outputs.len(),
    ensures
        output_error(roles, outputs, i) is None <==> forall|k: int|
            i <= k < outputs.len() ==> named(roles, #[trigger] outputs[k]) && !listed_before(
                outputs,
                k,
                outputs[k],
            ),
    decreases outputs.len() - i,
{
    if i < outputs.len() {
        lemma_output_error(roles, outputs, i + 1);
    }
}

/// What the absence of dependency errors says.
proof fn lemma_sound_dependencies(roles: Seq<NodeModel>)
    ensures
        dependencies_error(roles, 0) is None <==> {
            &&& forall|i: int, j: int|
                #![trigger roles[i].depends_on[j]]
                0 <= i < roles.len() && 0 <= j < roles[i].depends_on.len() ==> named(
                    roles,
                    roles[i].depends_on[j],
                )
            &&& forall|i: int| 0 <= i < roles.len() ==> (#[trigger] roles[i]).depends_on.no_duplicates()
        },
{
    lemma_dependencies_error(roles, 0);
    assert forall|i: int| 0 <= i < roles.len() implies (dependency_error(roles, #[trigger] roles[i], 0) is None
        <==> (roles[i].depends_on.no_duplicates() && forall|j: int|
        0 <= j < roles[i].depends_on.len() ==> named(roles, #[trigger] roles[i].depends_on[j]))) by {
        lemma_dependency_error(roles, roles[i], 0);
        lemma_distinct_items(roles[i].depends_on);
    }
}

/// A role graph is accepted exactly if it is well formed: it has roles and outputs, the names are
/// there and all different, dependencies and outputs are known and listed once, and the
/// dependencies can be put in order.
pub proof fn law_accepted_graphs_are_well_formed(roles: Seq<NodeModel>, outputs: Seq<Seq<char>>)
    ensures
        graph_error(roles, outputs) is None <==> well_formed(roles, outputs),
{
    lemma_name_error(roles, 0);
    lemma_distinct_names(roles);
    lemma_sound_dependencies(roles);
    lemma_output_error(roles, outputs, 0);
    lemma_distinct_items(outputs);
}

/// `path` leads from role to role, each time to one that the role before depends on.
pub open spec fn dependency_path(roles: Seq<NodeModel>, path: Seq<int>) -> bool {
    &&& forall|k: int| 0 <= k < path.len() ==> 0 <= #[trigger] path[k] < roles.len()
    &&& forall|k: int|
        0 < k < path.len() ==> roles[path[k - 1]].depends_on.contains(roles[#[trigger] path[k]].name)
}

/// In an accepted graph no role waits for itself: a path along dependencies never comes back.
pub proof fn law_accepted_graphs_have_no_cycle(
    roles: Seq<NodeModel>,
    outputs: Seq<Seq<char>>,
    path: Seq<int>,
)
    requires
        graph_error(roles, outputs) is None,
        dependency_path(roles, path),
        path.len() >= 2,
    ensures
        path.first() != path.last(),
{
    let rank = choose|rank: spec_fn(Seq<char>) -> nat| ranked(roles, rank);
    lemma_rank_decreases(roles, path, rank);
}

proof fn lemma_rank_decreases(roles: Seq<NodeModel>, path: Seq<int>, rank: spec_fn(Seq<char>) -> nat)
    requires
        ranked(roles, rank),
        dependency_path(roles, path),
        path.len() >= 2,
    ensures
        rank(roles[path.last()].name) < rank(roles[path.first()].name),
    decreases path.len(),
{
    let n = path.len() as int;
    assert(0 <= path[n - 2] < roles.len());
    let from = path[n - 2];
    let dependencies = roles[from].depends_on;
    let target = roles[path[n - 1]].name;
    assert(dependencies.contains(target));
    let j = choose|j: int| 0 <= j < dependencies.len() && dependencies[j] == target;
    assert(rank(roles[from].depends_on[j]) < rank(roles[from].name));
    if n > 2 {
        let shorter = path.drop_last();
        assert forall|k: int| 0 < k < shorter.len() implies roles[shorter[k - 1]].depends_on.contains(
            roles[#[trigger] shorter[k]].name,
        ) by {
            assert(shorter[k] == path[k]);
            assert(shorter[k - 1] == path[k - 1]);
        }
        assert forall|k: int| 0 <= k < shorter.len() implies 0 <= #[trigger] shorter[k] < roles.len() by {
            assert(shorter[k] == path[k]);
        }
        lemma_rank_decreases(roles, shorter, rank);
        assert(shorter.last() == path[n - 2]);
    }
}

/// Checks a role graph.
pub fn validate_role_graph(roles: &Vec<RoleNode>, outputs: &Vec<String>) -> (r: Result<(), String>)
    ensures
        plain_error(r) == graph_error(crate::text::views(roles@), crate::text::views(outputs@)),
{
    let ghost model = crate::text::views(roles@);
    if roles.len() == 0 {
        return Err("at least one role is required".to_owned());
    }
    if outputs.len() == 0 {
        return Err("at least one output role is required".to_owned());
    }
    if let Err(message) = check_names(roles) {
        return Err(message);
    }
    if let Err(message) = check_dependencies(roles) {
        return Err(message);
    }
    if let Err(message) = check_outputs(roles, outputs) {
        return Err(message);
    }
    proof {
        lemma_name_error(model, 0);
        lemma_distinct_names(model);
        lemma_sound_dependencies(model);
    }
    if is_acyclic(roles) {
        Ok(())
    } else {
        Err("role dependency graph contains a cycle".to_owned())
    }
}

}
