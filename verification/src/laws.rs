//! What differences and their application promise together.
use vstd::prelude::*;

use crate::change;
use crate::change::{ChangeDoc, FieldDoc};
use crate::delta;
use crate::fault;
use crate::fault::Fault;
use crate::first;
use crate::number::NumKey;
use crate::pointer;
use crate::replay;
use crate::replay::{Order, Outcome};
use crate::rows;
use crate::rows::Rows;
use crate::sorted_map;
use crate::tree;
use crate::tree::{Doc, Path, Tree};
use crate::value;

verus! {

/// Whether two sets of rows are equal however their numbers are written.
pub open spec fn same_rows(a: Rows, b: Rows) -> bool {
    forall|id: Seq<char>| !delta::differs(a, b, id)
}

/// Whether an order can come from a request: rows and changes are valid, and no
/// row is changed twice.
pub open spec fn valid_order(order: Order) -> bool {
    &&& rows::valid_rows(order.rows)
    &&& change::first_repeat(change::ids_of(order.changes)) is None
    &&& forall|i: int|
        0 <= i < order.changes.len() ==> change::valid_change(#[trigger] order.changes[i])
}

/// The same changes for other rows in the other direction.
pub open spec fn undoing(order: Order, rows: Rows) -> Order {
    Order { rows, reverse: !order.reverse, changes: order.changes }
}

/// Whether no change of an update lies inside another one of the same update.
pub open spec fn untangled(c: ChangeDoc) -> bool {
    c matches ChangeDoc::Update { fields, .. } ==> tree::separate(replay::writes(fields, false))
}

/// A request to apply changes to rows.
pub open spec fn apply_request(l: Seq<Doc>, changes: Seq<ChangeDoc>, direction: Seq<char>) -> Doc {
    Tree::Object(
        map![
            "rows"@ => Tree::List(l),
            "changes"@ => Tree::List(change::changes_list(changes)),
            "direction"@ => Tree::Text(direction)
        ],
    )
}

/// What is read from a request is valid.
pub proof fn law_read_orders_are_valid(request: Doc)
    requires
        replay::read_order(request) is Ok,
    ensures
        valid_order(replay::read_order(request)->Ok_0),
{
    let m = request->Object_0;
    rows::lemma_read_rows_valid(value::entry(m, "rows"@), "/rows"@);
    let order = replay::read_order(request)->Ok_0;
    let s = value::entry(m, "changes"@)->0->List_0;
    let f = change::change_reader("/changes"@);
    rows::lemma_gather_item(s, f);
    assert forall|i: int| 0 <= i < order.changes.len() implies change::valid_change(
        #[trigger] order.changes[i],
    ) by {
        assert(f(i as nat, s[i]) == Ok::<ChangeDoc, Fault>(order.changes[i]));
        change::lemma_read_change_valid(s[i], fault::item("/changes"@, i as nat));
    }
}

/// A written request is read as what it was written from.
pub proof fn lemma_read_apply_request(l: Seq<Doc>, order: Order)
    requires
        valid_order(order),
        rows::lists_rows(l, order.rows),
    ensures
        replay::read_order(
            apply_request(
                l,
                order.changes,
                if order.reverse {
                    "reverse"@
                } else {
                    "forward"@
                },
            ),
        ) == Ok::<Order, Fault>(order),
{
    reveal_strlit("rows");
    reveal_strlit("changes");
    reveal_strlit("direction");
    reveal_strlit("forward");
    reveal_strlit("reverse");
    assert("rows"@.len() == 4 && "changes"@.len() == 7 && "direction"@.len() == 9);
    assert("forward"@[0] == 'f' && "reverse"@[0] == 'r');
    rows::law_rows_round_trip(l, order.rows, "/rows"@);
    change::law_changes_round_trip(order.changes, "/changes"@);
}

proof fn lemma_distinct_ids(changes: Seq<ChangeDoc>)
    requires
        change::first_repeat(change::ids_of(changes)) is None,
    ensures
        forall|i: int, j: int|
            0 <= i < j < changes.len() ==> (#[trigger] changes[i]).id() != (
            #[trigger] changes[j]).id(),
        changes.len() > 0 ==> {
            &&& change::first_repeat(change::ids_of(changes.drop_last())) is None
            &&& !change::ids_of(changes.drop_last()).contains(changes.last().id())
        },
{
    let ids = change::ids_of(changes);
    change::lemma_first_repeat(ids);
    assert forall|i: int, j: int| 0 <= i < j < changes.len() implies (#[trigger] changes[i]).id()
        != (#[trigger] changes[j]).id() by {
        assert(ids[i] != ids[j]);
    }
    if changes.len() > 0 {
        assert(change::ids_of(changes.drop_last()) =~= ids.drop_last());
    }
}

/// What changes do to a row is what the one that names it does.
proof fn lemma_steps_at(rows: Rows, changes: Seq<ChangeDoc>, reverse: bool, i: int)
    requires
        change::first_repeat(change::ids_of(changes)) is None,
        replay::steps(rows, changes, reverse) is Some,
        0 <= i < changes.len(),
        changes[i] is Update ==> rows.contains_key(changes[i].id()),
    ensures
        replay::step(rows, changes[i], reverse) is Some,
        ({
            let id = changes[i].id();
            let all = replay::steps(rows, changes, reverse)->0;
            let one = replay::step(rows, changes[i], reverse)->0;
            &&& all.contains_key(id) == one.contains_key(id)
            &&& all.contains_key(id) ==> all[id] == one[id]
        }),
    decreases changes.len(),
{
    lemma_distinct_ids(changes);
    let front = changes.drop_last();
    let id = changes[i].id();
    if i < changes.len() - 1 {
        assert(front[i] == changes[i]);
        lemma_steps_at(rows, front, reverse, i);
        assert(changes[i].id() != changes[changes.len() - 1].id());
    } else {
        replay::lemma_steps_elsewhere(rows, front, reverse, id);
    }
}

/// Changes to different rows can all be made where each one can.
proof fn lemma_steps_total(rows: Rows, changes: Seq<ChangeDoc>, reverse: bool)
    requires
        change::first_repeat(change::ids_of(changes)) is None,
        forall|i: int|
            0 <= i < changes.len() ==> replay::step(rows, #[trigger] changes[i], reverse) is Some,
    ensures
        replay::steps(rows, changes, reverse) is Some,
    decreases changes.len(),
{
    if changes.len() > 0 {
        lemma_distinct_ids(changes);
        let front = changes.drop_last();
        assert forall|i: int| 0 <= i < front.len() implies replay::step(
            rows,
            #[trigger] front[i],
            reverse,
        ) is Some by {
            assert(front[i] == changes[i]);
        }
        lemma_steps_total(rows, front, reverse);
        let last = changes[changes.len() - 1];
        replay::lemma_steps_elsewhere(rows, front, reverse, last.id());
    }
}

/// Where an order is not refused, no change of it is.
proof fn lemma_checked(order: Order, i: int)
    requires
        replay::check_changes(order.rows, order.changes, order.reverse, "/changes"@) is None,
        0 <= i < order.changes.len(),
    ensures
        replay::check_change(
            order.rows,
            order.changes[i],
            order.reverse,
            fault::item("/changes"@, i as nat),
        ) is None,
        order.changes[i] is Update ==> order.rows.contains_key(order.changes[i].id()),
{
    let f = replay::change_faults(order.rows, order.changes, order.reverse, "/changes"@);
    first::lemma_none_found(order.changes.len(), f);
    assert(f(i as nat) is None);
}

proof fn lemma_field_checked(
    row: Doc,
    fields: Seq<FieldDoc>,
    reverse: bool,
    path: Seq<char>,
    i: int,
)
    requires
        first::first_some(
            fields.len(),
            replay::field_faults(row, fields, reverse, path),
        ) is None,
        0 <= i < fields.len(),
    ensures
        value::normal_option(replay::expected(fields[i], reverse)) == value::normal_option(
            tree::lookup(row, replay::place(fields[i])),
        ),
        replay::target(fields[i], reverse) is Some ==> tree::has_parent(
            row,
            replay::place(fields[i]),
        ),
{
    let f = replay::field_faults(row, fields, reverse, path);
    first::lemma_none_found(fields.len(), f);
    assert(f(i as nat) is None);
}

spec fn normal_writes(fields: Seq<FieldDoc>, reverse: bool) -> Seq<(Path, Option<Tree<NumKey>>)> {
    tree::relabel_writes(replay::writes(fields, reverse), value::by_value())
}

proof fn lemma_normal_write(fields: Seq<FieldDoc>, reverse: bool, i: int)
    requires
        0 <= i < fields.len(),
    ensures
        normal_writes(fields, reverse).len() == fields.len(),
        normal_writes(fields, reverse)[i].0 == replay::place(fields[i]),
        normal_writes(fields, reverse)[i].1 == value::normal_option(
            replay::target(fields[i], reverse),
        ),
        replay::writes(fields, reverse)[i] == (
            replay::place(fields[i]),
            replay::target(fields[i], reverse),
        ),
{
}

/// Field changes that fit a row are undone by the same ones backwards.
proof fn lemma_fields_undone(
    row: Doc,
    fields: Seq<FieldDoc>,
    reverse: bool,
    path: Seq<char>,
)
    requires
        forall|i: int| 0 <= i < fields.len() ==> change::valid_field(#[trigger] fields[i]),
        first::first_some(
            fields.len(),
            replay::field_faults(row, fields, reverse, path),
        ) is None,
        tree::run(row, replay::writes(fields, reverse)) is Some,
        tree::run(
            tree::run(row, replay::writes(fields, reverse))->0,
            replay::writes(fields, !reverse),
        ) is Some,
    ensures
        value::normal(
            tree::run(
                tree::run(row, replay::writes(fields, reverse))->0,
                replay::writes(fields, !reverse),
            )->0,
        ) == value::normal(row),
{
    let there = normal_writes(fields, reverse);
    let back = normal_writes(fields, !reverse);
    let mid = tree::run(row, replay::writes(fields, reverse))->0;
    let f = value::by_value();
    tree::lemma_relabel_run(row, replay::writes(fields, reverse), f);
    tree::lemma_relabel_run(mid, replay::writes(fields, !reverse), f);
    assert forall|i: int| 0 <= i < there.len() implies (#[trigger] there[i]).0.len() > 0 by {
        lemma_normal_write(fields, reverse, i);
        assert(change::valid_field(fields[i]));
    }
    assert forall|i: int| 0 <= i < there.len() implies (#[trigger] back[i]).0 == there[i].0
        && back[i].1 == tree::lookup(value::normal(row), there[i].0) by {
        lemma_normal_write(fields, reverse, i);
        lemma_normal_write(fields, !reverse, i);
        lemma_field_checked(row, fields, reverse, path, i);
        tree::lemma_relabel_lookup(row, replay::place(fields[i]), f);
    }
    tree::law_undo(value::normal(row), there, back);
}

/// Where changes were made and are made again in the other direction, the rows
/// are what they were, however their numbers are written.
pub proof fn law_undo_restores(order: Order, middle: Rows, last: Rows)
    requires
        valid_order(order),
        replay::carry_out(order) == Outcome::Done(middle),
        replay::carry_out(undoing(order, middle)) == Outcome::Done(last),
    ensures
        same_rows(last, order.rows),
{
    let changes = order.changes;
    let back = undoing(order, middle);
    assert forall|id: Seq<char>| !delta::differs(last, order.rows, id) by {
        let ids = change::ids_of(changes);
        if ids.contains(id) {
            let i = choose|i: int| 0 <= i < ids.len() && ids[i] == id;
            let c = changes[i];
            assert(c.id() == id);
            assert(change::valid_change(c));
            lemma_checked(order, i);
            lemma_checked(back, i);
            lemma_steps_at(order.rows, changes, order.reverse, i);
            lemma_steps_at(middle, changes, !order.reverse, i);
            if let ChangeDoc::Update { fields, .. } = c {
                let path = fault::child(fault::item("/changes"@, i as nat), "fields"@);
                lemma_fields_undone(order.rows[id], fields, order.reverse, path);
            }
        } else {
            replay::lemma_steps_elsewhere(order.rows, changes, order.reverse, id);
            replay::lemma_steps_elsewhere(middle, changes, !order.reverse, id);
        }
    }
}

/// Fields that lie apart can be undone: what the other direction expects is
/// there, and so is every parent that it needs.
proof fn lemma_fields_undoable(
    row: Doc,
    fields: Seq<FieldDoc>,
    reverse: bool,
    path: Seq<char>,
    other: Seq<char>,
)
    requires
        row is Object,
        forall|i: int| 0 <= i < fields.len() ==> change::valid_field(#[trigger] fields[i]),
        tree::separate(replay::writes(fields, false)),
        first::first_some(
            fields.len(),
            replay::field_faults(row, fields, reverse, path),
        ) is None,
    ensures
        tree::run(row, replay::writes(fields, reverse)) is Some,
        tree::run(row, replay::writes(fields, reverse))->0 is Object,
        first::first_some(
            fields.len(),
            replay::field_faults(
                tree::run(row, replay::writes(fields, reverse))->0,
                fields,
                !reverse,
                other,
            ),
        ) is None,
        tree::run(
            tree::run(row, replay::writes(fields, reverse))->0,
            replay::writes(fields, !reverse),
        ) is Some,
        tree::run(
            tree::run(row, replay::writes(fields, reverse))->0,
            replay::writes(fields, !reverse),
        )->0 is Object,
{
    let there = replay::writes(fields, reverse);
    let back = replay::writes(fields, !reverse);
    let plain = replay::writes(fields, false);
    assert forall|i: int| 0 <= i < fields.len() implies {
        &&& (#[trigger] there[i]).0.len() > 0
        &&& (there[i].1 is Some ==> tree::has_parent(row, there[i].0))
        &&& (back[i].1 is Some ==> tree::has_parent(row, there[i].0))
        &&& back[i].0 == there[i].0
        &&& plain[i].0 == there[i].0
    } by {
        lemma_normal_write(fields, reverse, i);
        lemma_normal_write(fields, !reverse, i);
        lemma_normal_write(fields, false, i);
        assert(change::valid_field(fields[i]));
        lemma_field_checked(row, fields, reverse, path, i);
        if back[i].1 is Some {
            assert(replay::expected(fields[i], reverse) is Some);
            tree::lemma_lookup_has_parent(row, there[i].0);
        }
    }
    assert forall|i: int, j: int| 0 <= i < fields.len() && 0 <= j < fields.len() && i != j implies !tree::nested(
        (#[trigger] there[i]).0,
        (#[trigger] there[j]).0,
    ) by {
        assert(!tree::nested(plain[i].0, plain[j].0));
    }
    assert forall|i: int, j: int| 0 <= i < fields.len() && 0 <= j < fields.len() && i != j implies !tree::nested(
        (#[trigger] back[i]).0,
        (#[trigger] back[j]).0,
    ) by {
        assert(!tree::nested(there[i].0, there[j].0));
    }
    tree::lemma_run_separate(row, there);
    let mid = tree::run(row, there)->0;
    assert forall|i: int| 0 <= i < back.len() implies (#[trigger] back[i]).0.len() > 0 && (
    back[i].1 is Some ==> tree::has_parent(mid, back[i].0)) by {
        assert(there[i].0.len() > 0);
    }
    tree::lemma_run_separate(mid, back);
    let f = replay::field_faults(mid, fields, !reverse, other);
    assert forall|i: nat| i < fields.len() implies #[trigger] f(i) is None by {
        let k = i as int;
        assert(there[k].0.len() > 0);
        lemma_normal_write(fields, reverse, k);
        lemma_normal_write(fields, !reverse, k);
        assert(tree::lookup(mid, there[k].0) == there[k].1);
        assert(replay::expected(fields[k], !reverse) == replay::target(fields[k], reverse));
        assert(back[k].1 is Some ==> tree::has_parent(mid, back[k].0));
    }
    first::lemma_none_found(fields.len(), f);
}

proof fn lemma_undo_change(order: Order, i: int, middle: Rows, path: Seq<char>)
    requires
        valid_order(order),
        replay::carry_out(order) == Outcome::Done(middle),
        0 <= i < order.changes.len(),
        untangled(order.changes[i]),
    ensures
        replay::check_change(middle, order.changes[i], !order.reverse, path) is None,
        replay::step(middle, order.changes[i], !order.reverse) is Some,
{
    let c = order.changes[i];
    let id = c.id();
    assert(change::valid_change(c));
    lemma_checked(order, i);
    lemma_steps_at(order.rows, order.changes, order.reverse, i);
    if let ChangeDoc::Update { fields, .. } = c {
        assert(order.rows.contains_key(id));
        let here = fault::child(fault::item("/changes"@, i as nat), "fields"@);
        let other = fault::child(path, "fields"@);
        lemma_fields_undoable(order.rows[id], fields, order.reverse, here, other);
        assert(first::first_some(
            fields.len(),
            replay::field_faults(middle[id], fields, !order.reverse, other),
        ) is None);
    }
}

/// Changes that were made, and whose updates do not lie inside each other, can
/// be made in the other direction, and that restores the rows.
pub proof fn law_undo_succeeds(order: Order, middle: Rows)
    requires
        valid_order(order),
        forall|i: int| 0 <= i < order.changes.len() ==> untangled(#[trigger] order.changes[i]),
        replay::carry_out(order) == Outcome::Done(middle),
    ensures
        replay::carry_out(undoing(order, middle)) is Done,
        same_rows(replay::carry_out(undoing(order, middle))->Done_0, order.rows),
{
    let back = undoing(order, middle);
    let f = replay::change_faults(middle, back.changes, back.reverse, "/changes"@);
    assert forall|i: nat| i < back.changes.len() implies #[trigger] f(i) is None by {
        assert(untangled(order.changes[i as int]));
        lemma_undo_change(order, i as int, middle, fault::item("/changes"@, i));
    }
    first::lemma_none_found(back.changes.len(), f);
    assert forall|i: int| 0 <= i < back.changes.len() implies replay::step(
        middle,
        #[trigger] back.changes[i],
        back.reverse,
    ) is Some by {
        assert(untangled(order.changes[i]));
        lemma_undo_change(order, i, middle, Seq::empty());
    }
    lemma_steps_total(middle, back.changes, back.reverse);
    law_undo_restores(order, middle, replay::carry_out(back)->Done_0);
}

/// Changes that fit the rows are all made exactly where no write takes away the
/// parent object of a later one; otherwise none is made.
pub proof fn law_made_unless_parent_lost(order: Order)
    requires
        valid_order(order),
        replay::check_changes(order.rows, order.changes, order.reverse, "/changes"@) is None,
    ensures
        replay::carry_out(order) is Done <==> replay::loss(
            order.rows,
            order.changes,
            order.reverse,
            "/changes"@,
        ) is None,
        replay::carry_out(order) is Refused <==> replay::loss(
            order.rows,
            order.changes,
            order.reverse,
            "/changes"@,
        ) == Some(replay::carry_out(order)->Refused_0),
{
    let (rows, changes, reverse) = (order.rows, order.changes, order.reverse);
    let f = replay::loss_faults(rows, changes, reverse, "/changes"@);
    first::lemma_none_found(changes.len(), f);
    assert forall|i: int| 0 <= i < changes.len() implies (f(i as nat) is None
        <==> replay::step(rows, #[trigger] changes[i], reverse) is Some) by {
        if let ChangeDoc::Update { id, fields } = changes[i] {
            tree::lemma_first_lost(rows[id], replay::writes(fields, reverse));
        }
    }
    if replay::steps(rows, changes, reverse) is Some {
        assert forall|i: nat| i < changes.len() implies #[trigger] f(i) is None by {
            lemma_checked(order, i as int);
            lemma_steps_at(rows, changes, reverse, i as int);
            assert(replay::step(rows, changes[i as int], reverse) is Some);
        }
    } else if replay::loss(rows, changes, reverse, "/changes"@) is None {
        assert forall|i: int| 0 <= i < changes.len() implies replay::step(
            rows,
            #[trigger] changes[i],
            reverse,
        ) is Some by {
            assert(f(i as nat) is None);
        }
        lemma_steps_total(rows, changes, reverse);
    }
}

/// Changes that fit the rows, and whose updates do not lie inside each other,
/// are all made.
pub proof fn law_untangled_changes_are_made(order: Order)
    requires
        valid_order(order),
        forall|i: int| 0 <= i < order.changes.len() ==> untangled(#[trigger] order.changes[i]),
        replay::check_changes(order.rows, order.changes, order.reverse, "/changes"@) is None,
    ensures
        replay::carry_out(order) is Done,
{
    assert forall|i: int| 0 <= i < order.changes.len() implies replay::step(
        order.rows,
        #[trigger] order.changes[i],
        order.reverse,
    ) is Some by {
        let c = order.changes[i];
        assert(change::valid_change(c) && untangled(c));
        lemma_checked(order, i);
        if let ChangeDoc::Update { id, fields } = c {
            let here = fault::child(fault::item("/changes"@, i as nat), "fields"@);
            lemma_fields_undoable(order.rows[id], fields, order.reverse, here, here);
        }
    }
    lemma_steps_total(order.rows, order.changes, order.reverse);
}

/// Changes to different rows do not get in each other's way: a change fits the
/// rows exactly if it fits what the changes before it made of them, and is
/// refused in the same words.
pub proof fn law_checks_do_not_interfere(order: Order, i: int, path: Seq<char>)
    requires
        valid_order(order),
        0 <= i < order.changes.len(),
        replay::steps(order.rows, order.changes.take(i), order.reverse) is Some,
    ensures
        replay::check_change(
            replay::steps(order.rows, order.changes.take(i), order.reverse)->0,
            order.changes[i],
            order.reverse,
            path,
        ) == replay::check_change(order.rows, order.changes[i], order.reverse, path),
{
    let front = order.changes.take(i);
    let id = order.changes[i].id();
    lemma_distinct_ids(order.changes);
    assert(!change::ids_of(front).contains(id)) by {
        let ids = change::ids_of(front);
        if ids.contains(id) {
            let j = choose|j: int| 0 <= j < ids.len() && ids[j] == id;
            assert(order.changes[j].id() == id);
        }
    }
    replay::lemma_steps_elsewhere(order.rows, front, order.reverse, id);
}

/// The parting path that an item of a difference names.
proof fn lemma_delta_item(fields: Seq<FieldDoc>, s: Doc, t: Doc, i: int) -> (p: Path)
    requires
        delta::is_delta(fields, s, t),
        s is Object,
        t is Object,
        0 <= i < fields.len(),
    ensures
        delta::parts(s, t, p),
        fields[i] == delta::field_at(s, t, p),
        replay::place(fields[i]) == p,
        p.len() > 0,
        tree::has_parent(s, p),
        tree::has_parent(t, p),
        change::valid_field(fields[i]),
{
    let f = value::by_value();
    assert(delta::is_parting(fields[i], s, t));
    let p = choose|p: Path| #[trigger] delta::parts(s, t, p) && fields[i] == delta::field_at(
        s,
        t,
        p,
    );
    tree::lemma_part_has_parent(value::normal(s), value::normal(t), p);
    tree::lemma_relabel_parent(s, p, f);
    tree::lemma_relabel_parent(t, p, f);
    pointer::law_pointer_round_trip(p);
    tree::lemma_part_differs(value::normal(s), value::normal(t), p);
    tree::lemma_relabel_lookup(s, p, f);
    tree::lemma_relabel_lookup(t, p, f);
    p
}

/// The difference below a row fits either side and leads to the other.
proof fn lemma_delta_leads(
    fields: Seq<FieldDoc>,
    s: Doc,
    t: Doc,
    reverse: bool,
    path: Seq<char>,
)
    requires
        delta::is_delta(fields, s, t),
        s is Object,
        t is Object,
    ensures
        ({
            let from = if reverse { t } else { s };
            let to = if reverse { s } else { t };
            &&& first::first_some(
                fields.len(),
                replay::field_faults(from, fields, reverse, path),
            ) is None
            &&& tree::run(from, replay::writes(fields, reverse)) is Some
            &&& value::normal(tree::run(from, replay::writes(fields, reverse))->0)
                == value::normal(to)
        }),
{
    let from = if reverse { t } else { s };
    let to = if reverse { s } else { t };
    let a = value::normal(from);
    let b = value::normal(to);
    let f = value::by_value();
    let ws = normal_writes(fields, reverse);
    let check = replay::field_faults(from, fields, reverse, path);
    assert forall|i: nat| i < fields.len() implies #[trigger] check(i) is None by {
        let p = lemma_delta_item(fields, s, t, i as int);
    }
    first::lemma_none_found(fields.len(), check);
    let parted = tree::partings(a, b);
    assert forall|p: Path| #[trigger] parted.contains(p) == delta::parts(s, t, p) by {
        tree::lemma_part_symmetric(value::normal(s), value::normal(t), p);
    }
    assert forall|p: Path| #[trigger] tree::paths_of(ws).contains(p) == parted.contains(p) by {
        if tree::paths_of(ws).contains(p) {
            let i = choose|i: int| 0 <= i < ws.len() && #[trigger] ws[i].0 == p;
            lemma_normal_write(fields, reverse, i);
            let q = lemma_delta_item(fields, s, t, i);
        }
        if parted.contains(p) {
            assert(delta::parts(s, t, p));
            let g = delta::field_at(s, t, p);
            assert(fields.contains(g));
            let i = choose|i: int| 0 <= i < fields.len() && fields[i] == g;
            let q = lemma_delta_item(fields, s, t, i);
            pointer::law_pointer_injective(p, q);
            lemma_normal_write(fields, reverse, i);
            assert(ws[i].0 == p);
        }
    }
    assert(tree::paths_of(ws) =~= parted);
    assert forall|i: int, j: int| 0 <= i < ws.len() && 0 <= j < ws.len() && i != j implies (
    #[trigger] ws[i]).0 != (#[trigger] ws[j]).0 by {
        lemma_normal_write(fields, reverse, i);
        lemma_normal_write(fields, reverse, j);
        let p = lemma_delta_item(fields, s, t, i);
        let q = lemma_delta_item(fields, s, t, j);
        let ks = change::paths_of(fields);
        if p == q {
            assert(ks[i] == ks[j]);
            sorted_map::lemma_ascending_distinct(ks, i, j);
        }
    }
    assert forall|i: int| 0 <= i < ws.len() implies (#[trigger] ws[i]).1 == tree::lookup(
        b,
        ws[i].0,
    ) by {
        lemma_normal_write(fields, reverse, i);
        let p = lemma_delta_item(fields, s, t, i);
        tree::lemma_relabel_lookup(to, p, f);
    }
    tree::lemma_write_partings(a, b, ws);
    tree::lemma_relabel_run(from, replay::writes(fields, reverse), f);
}

/// A difference can stand in a request.
pub proof fn lemma_diff_valid(changes: Seq<ChangeDoc>, before: Rows, after: Rows)
    requires
        delta::is_diff(changes, before, after),
        rows::valid_rows(before),
        rows::valid_rows(after),
    ensures
        change::first_repeat(change::ids_of(changes)) is None,
        forall|i: int| 0 <= i < changes.len() ==> change::valid_change(#[trigger] changes[i]),
{
    let ids = change::ids_of(changes);
    assert forall|i: int, j: int| 0 <= i < j < ids.len() implies ids[i] != ids[j] by {
        if ids[i] == ids[j] {
            sorted_map::lemma_ascending_distinct(ids, i, j);
        }
    }
    change::lemma_no_repeat(ids);
    assert forall|i: int| 0 <= i < changes.len() implies change::valid_change(
        #[trigger] changes[i],
    ) by {
        assert(delta::fits(changes[i], before, after));
        if let ChangeDoc::Update { id, fields } = changes[i] {
            let ks = change::paths_of(fields);
            assert forall|x: int, y: int| 0 <= x < y < ks.len() implies ks[x] != ks[y] by {
                if ks[x] == ks[y] {
                    sorted_map::lemma_ascending_distinct(ks, x, y);
                }
            }
            change::lemma_no_repeat(ks);
            assert forall|x: int| 0 <= x < fields.len() implies change::valid_field(
                #[trigger] fields[x],
            ) by {
                let p = lemma_delta_item(fields, before[id], after[id], x);
            }
        }
    }
}

/// The difference between two sets of rows leads from one to the other: applied
/// forwards to the rows before it gives the rows after, applied backwards to the
/// rows after it gives the rows before, however their numbers are written. It is
/// never refused.
pub proof fn law_diff_leads(changes: Seq<ChangeDoc>, before: Rows, after: Rows, reverse: bool)
    requires
        delta::is_diff(changes, before, after),
        rows::valid_rows(before),
        rows::valid_rows(after),
    ensures
        ({
            let from = if reverse { after } else { before };
            let to = if reverse { before } else { after };
            let done = replay::carry_out(Order { rows: from, reverse, changes });
            done is Done && same_rows(done->Done_0, to)
        }),
{
    let from = if reverse { after } else { before };
    let to = if reverse { before } else { after };
    lemma_diff_valid(changes, before, after);
    let f = replay::change_faults(from, changes, reverse, "/changes"@);
    assert forall|i: nat| i < changes.len() implies #[trigger] f(i) is None by {
        assert(delta::fits(changes[i as int], before, after));
        if let ChangeDoc::Update { id, fields } = changes[i as int] {
            lemma_delta_leads(
                fields,
                before[id],
                after[id],
                reverse,
                fault::child(fault::item("/changes"@, i), "fields"@),
            );
        }
    }
    first::lemma_none_found(changes.len(), f);
    assert forall|i: int| 0 <= i < changes.len() implies replay::step(
        from,
        #[trigger] changes[i],
        reverse,
    ) is Some by {
        assert(delta::fits(changes[i], before, after));
        if let ChangeDoc::Update { id, fields } = changes[i] {
            lemma_delta_leads(fields, before[id], after[id], reverse, Seq::empty());
        }
    }
    lemma_steps_total(from, changes, reverse);
    let done = replay::steps(from, changes, reverse)->0;
    assert forall|id: Seq<char>| !delta::differs(done, to, id) by {
        let ids = change::ids_of(changes);
        if ids.contains(id) {
            let i = choose|i: int| 0 <= i < ids.len() && ids[i] == id;
            assert(changes[i].id() == id);
            assert(delta::fits(changes[i], before, after));
            lemma_steps_at(from, changes, reverse, i);
            if let ChangeDoc::Update { id, fields } = changes[i] {
                lemma_delta_leads(fields, before[id], after[id], reverse, Seq::empty());
            }
        } else {
            assert(!delta::differs(before, after, id));
            replay::lemma_steps_elsewhere(from, changes, reverse, id);
        }
    }
}

/// Made changes leave valid rows.
pub proof fn lemma_done_valid(order: Order)
    requires
        valid_order(order),
        replay::carry_out(order) is Done,
    ensures
        rows::valid_rows(replay::carry_out(order)->Done_0),
{
    let done = replay::carry_out(order)->Done_0;
    let changes = order.changes;
    assert forall|id: Seq<char>| #[trigger] done.contains_key(id) implies id.len() > 0
        && done[id] is Object by {
        let ids = change::ids_of(changes);
        if ids.contains(id) {
            let i = choose|i: int| 0 <= i < ids.len() && ids[i] == id;
            assert(changes[i].id() == id);
            assert(change::valid_change(changes[i]));
            lemma_checked(order, i);
            lemma_steps_at(order.rows, changes, order.reverse, i);
            if let ChangeDoc::Update { fields, .. } = changes[i] {
                assert(order.rows.contains_key(id));
                lemma_run_keeps_object(order.rows[id], fields, order.reverse);
            }
        } else {
            replay::lemma_steps_elsewhere(order.rows, changes, order.reverse, id);
            assert(order.rows.contains_key(id));
        }
    }
}

proof fn lemma_run_keeps_object(row: Doc, fields: Seq<FieldDoc>, reverse: bool)
    requires
        row is Object,
        forall|i: int| 0 <= i < fields.len() ==> change::valid_field(#[trigger] fields[i]),
        tree::run(row, replay::writes(fields, reverse)) is Some,
    ensures
        tree::run(row, replay::writes(fields, reverse))->0 is Object,
    decreases fields.len(),
{
    if fields.len() > 0 {
        let ws = replay::writes(fields, reverse);
        let rest = fields.drop_first();
        assert(change::valid_field(fields[0]));
        tree::law_put_then_lookup(row, ws[0].0, ws[0].1);
        assert(ws.drop_first() =~= replay::writes(rest, reverse));
        assert forall|i: int| 0 <= i < rest.len() implies change::valid_field(
            #[trigger] rest[i],
        ) by {
            assert(rest[i] == fields[i + 1]);
        }
        lemma_run_keeps_object(tree::put(row, ws[0].0, ws[0].1)->0, rest, reverse);
    }
}

/// A request made of rows and their difference to other rows is answered with
/// the other rows: forwards from the rows before, backwards from the rows after.
pub proof fn law_diff_then_apply(
    changes: Seq<ChangeDoc>,
    before: Rows,
    after: Rows,
    l: Seq<Doc>,
)
    requires
        delta::is_diff(changes, before, after),
        rows::valid_rows(before),
        rows::valid_rows(after),
    ensures
        rows::lists_rows(l, before) ==> {
            let done = replay::outcome(apply_request(l, changes, "forward"@));
            done is Done && same_rows(done->Done_0, after)
        },
        rows::lists_rows(l, after) ==> {
            let done = replay::outcome(apply_request(l, changes, "reverse"@));
            done is Done && same_rows(done->Done_0, before)
        },
{
    lemma_diff_valid(changes, before, after);
    law_diff_leads(changes, before, after, false);
    law_diff_leads(changes, before, after, true);
    if rows::lists_rows(l, before) {
        lemma_read_apply_request(l, Order { rows: before, reverse: false, changes });
    }
    if rows::lists_rows(l, after) {
        lemma_read_apply_request(l, Order { rows: after, reverse: true, changes });
    }
}

/// Rows that were answered to a forward request, sent back with the same changes
/// for the reverse direction, give the first rows again wherever that request is
/// carried out; where no field of an update lies inside another, it is.
pub proof fn law_reverse_restores(
    changes: Seq<ChangeDoc>,
    first: Rows,
    l: Seq<Doc>,
    middle: Rows,
    k: Seq<Doc>,
)
    requires
        valid_order(Order { rows: first, reverse: false, changes }),
        rows::lists_rows(l, first),
        replay::outcome(apply_request(l, changes, "forward"@)) == Outcome::Done(middle),
        rows::lists_rows(k, middle),
    ensures
        ({
            let done = replay::outcome(apply_request(k, changes, "reverse"@));
            &&& done is Done ==> same_rows(done->Done_0, first)
            &&& (forall|i: int| 0 <= i < changes.len() ==> untangled(#[trigger] changes[i]))
                ==> done is Done
        }),
{
    let order = Order { rows: first, reverse: false, changes };
    lemma_read_apply_request(l, order);
    lemma_done_valid(order);
    let back = undoing(order, middle);
    assert(valid_order(back));
    lemma_read_apply_request(k, back);
    if replay::carry_out(back) is Done {
        law_undo_restores(order, middle, replay::carry_out(back)->Done_0);
    }
    if forall|i: int| 0 <= i < changes.len() ==> untangled(#[trigger] changes[i]) {
        law_undo_succeeds(order, middle);
    }
}

/// Two sets of rows are the same exactly if they have the same ids, with values
/// that are equal by value.
pub proof fn law_same_rows(a: Rows, b: Rows)
    ensures
        same_rows(a, b) <==> forall|id: Seq<char>|
            #![trigger a.contains_key(id)]
            #![trigger b.contains_key(id)]
            a.contains_key(id) == b.contains_key(id) && (a.contains_key(id) ==> value::normal(a[id])
                == value::normal(b[id])),
{
    if same_rows(a, b) {
        assert forall|id: Seq<char>| a.contains_key(id) == b.contains_key(id) && (a.contains_key(id)
            ==> value::normal(a[id]) == value::normal(b[id])) by {
            assert(!delta::differs(a, b, id));
        }
    }
}

/// Whatever rows a request names before and after, and whatever else it holds,
/// its answer leads from exactly these rows to exactly those, and back.
pub proof fn law_diff_of_a_request(
    request: Doc,
    before: Rows,
    after: Rows,
    l: Seq<Doc>,
    k: Seq<Doc>,
    changes: Seq<ChangeDoc>,
)
    requires
        rows::valid_rows(before),
        rows::valid_rows(after),
        rows::lists_rows(l, before),
        rows::lists_rows(k, after),
        request matches Tree::Object(m) && m.contains_key("before"@) && m["before"@] == Tree::List(l)
            && m.contains_key("after"@) && m["after"@] == Tree::List(k),
        delta::read_sides(request) is Ok ==> delta::is_diff(
            changes,
            delta::read_sides(request)->Ok_0.0,
            delta::read_sides(request)->Ok_0.1,
        ),
    ensures
        delta::read_sides(request) == Ok::<(Rows, Rows), Fault>((before, after)),
        ({
            let done = replay::outcome(apply_request(l, changes, "forward"@));
            done is Done && same_rows(done->Done_0, after)
        }),
        ({
            let done = replay::outcome(apply_request(k, changes, "reverse"@));
            done is Done && same_rows(done->Done_0, before)
        }),
{
    rows::law_rows_round_trip(l, before, "/before"@);
    rows::law_rows_round_trip(k, after, "/after"@);
    delta::law_sides_are_read(request, before, after);
    law_diff_then_apply(changes, before, after, l);
    law_diff_then_apply(changes, before, after, k);
}

/// Whether a change fits does not depend on where it stands.
proof fn lemma_fit_anywhere(rows: Rows, c: ChangeDoc, reverse: bool, p: Seq<char>, q: Seq<char>)
    requires
        replay::check_change(rows, c, reverse, p) is None,
    ensures
        replay::check_change(rows, c, reverse, q) is None,
{
    replay::law_change_fits(rows, c, reverse, p);
    replay::law_change_fits(rows, c, reverse, q);
    if let ChangeDoc::Update { id, fields } = c {
        let at = p + seq!['/'] + "fields"@;
        let to = q + seq!['/'] + "fields"@;
        assert forall|i: int| 0 <= i < fields.len() implies replay::check_field(
            rows[id],
            #[trigger] fields[i],
            reverse,
            fault::item(to, i as nat),
        ) is None by {
            assert(replay::check_field(
                rows[id],
                fields[i],
                reverse,
                fault::item(at, i as nat),
            ) is None);
            replay::law_field_fits(rows[id], fields[i], reverse, fault::item(at, i as nat));
            replay::law_field_fits(rows[id], fields[i], reverse, fault::item(to, i as nat));
        }
    }
}

proof fn lemma_reordered(a: Order, b: Order)
    requires
        valid_order(a),
        valid_order(b),
        a.rows == b.rows,
        a.reverse == b.reverse,
        forall|c: ChangeDoc| a.changes.contains(c) <==> b.changes.contains(c),
        replay::carry_out(a) is Done,
    ensures
        replay::carry_out(b) is Done,
{
    let (rows, reverse) = (a.rows, a.reverse);
    assert forall|i: int| 0 <= i < b.changes.len() implies replay::check_change(
        rows,
        #[trigger] b.changes[i],
        reverse,
        fault::item("/changes"@, i as nat),
    ) is None && replay::step(rows, b.changes[i], reverse) is Some by {
        let c = b.changes[i];
        assert(b.changes.contains(c));
        let j = choose|j: int| 0 <= j < a.changes.len() && a.changes[j] == c;
        lemma_checked(a, j);
        lemma_steps_at(rows, a.changes, reverse, j);
        lemma_fit_anywhere(
            rows,
            c,
            reverse,
            fault::item("/changes"@, j as nat),
            fault::item("/changes"@, i as nat),
        );
    }
    replay::law_changes_fit_one_by_one(rows, b.changes, reverse, "/changes"@, 0);
    lemma_steps_total(rows, b.changes, reverse);
}

/// In which order changes to different rows are listed does not matter: they are
/// made in either order or in none, and leave the same rows.
pub proof fn law_order_does_not_matter(a: Order, b: Order)
    requires
        valid_order(a),
        valid_order(b),
        a.rows == b.rows,
        a.reverse == b.reverse,
        forall|c: ChangeDoc| a.changes.contains(c) <==> b.changes.contains(c),
    ensures
        replay::carry_out(a) is Done <==> replay::carry_out(b) is Done,
        replay::carry_out(a) is Done ==> replay::carry_out(a) == replay::carry_out(b),
{
    if replay::carry_out(a) is Done {
        lemma_reordered(a, b);
        let (rows, reverse) = (a.rows, a.reverse);
        let r = replay::carry_out(a)->Done_0;
        let s = replay::carry_out(b)->Done_0;
        assert forall|id: Seq<char>|
            #![trigger r.dom().contains(id)]
            #![trigger s.dom().contains(id)]
            r.dom().contains(id) == s.dom().contains(id) && (r.dom().contains(id) ==> r[id]
                == s[id]) by {
            let ids = change::ids_of(a.changes);
            let others = change::ids_of(b.changes);
            if ids.contains(id) {
                let i = choose|i: int| 0 <= i < ids.len() && ids[i] == id;
                let c = a.changes[i];
                assert(a.changes.contains(c));
                assert(b.changes.contains(c));
                let j = choose|j: int| 0 <= j < b.changes.len() && b.changes[j] == c;
                lemma_checked(a, i);
                lemma_checked(b, j);
                lemma_steps_at(rows, a.changes, reverse, i);
                lemma_steps_at(rows, b.changes, reverse, j);
            } else {
                if others.contains(id) {
                    let j = choose|j: int| 0 <= j < others.len() && others[j] == id;
                    let c = b.changes[j];
                    assert(b.changes.contains(c));
                    assert(a.changes.contains(c));
                    let i = choose|i: int| 0 <= i < a.changes.len() && a.changes[i] == c;
                    assert(ids[i] == id);
                }
                replay::lemma_steps_elsewhere(rows, a.changes, reverse, id);
                replay::lemma_steps_elsewhere(rows, b.changes, reverse, id);
            }
        }
        assert(r =~= s);
    }
    if replay::carry_out(b) is Done {
        lemma_reordered(b, a);
    }
}

/// After changes were made, a row that was added is there as it was given, a row
/// that was removed is gone, an updated row is what its writes made of it, and a
/// row that no change names is as it was.
pub proof fn law_rows_afterwards(order: Order, made: Rows, i: int, other: Seq<char>)
    requires
        valid_order(order),
        replay::carry_out(order) == Outcome::Done(made),
    ensures
        (forall|j: int| 0 <= j < order.changes.len() ==> (#[trigger] order.changes[j]).id() != other)
            ==> made.contains_key(other) == order.rows.contains_key(other) && made[other]
            == order.rows[other],
        0 <= i < order.changes.len() ==> match order.changes[i] {
            ChangeDoc::Add { id, value } => if order.reverse {
                !made.contains_key(id)
            } else {
                made.contains_key(id) && made[id] == value
            },
            ChangeDoc::Remove { id, value } => if order.reverse {
                made.contains_key(id) && made[id] == value
            } else {
                !made.contains_key(id)
            },
            ChangeDoc::Update { id, fields } => made.contains_key(id) && order.rows.contains_key(id)
                && tree::run(order.rows[id], replay::writes(fields, order.reverse)) == Some(made[id]),
        },
{
    let ids = change::ids_of(order.changes);
    if forall|j: int| 0 <= j < order.changes.len() ==> (#[trigger] order.changes[j]).id() != other {
        if ids.contains(other) {
            let j = choose|j: int| 0 <= j < ids.len() && ids[j] == other;
            assert(order.changes[j].id() == other);
        }
        replay::lemma_steps_elsewhere(order.rows, order.changes, order.reverse, other);
    }
    if 0 <= i < order.changes.len() {
        lemma_checked(order, i);
        lemma_steps_at(order.rows, order.changes, order.reverse, i);
    }
}

/// An update whose fields do not lie inside each other leaves at each of its
/// places what it was to leave there, and everything beside them as it was.
pub proof fn law_update_writes(
    row: Doc,
    fields: Seq<FieldDoc>,
    reverse: bool,
    made: Doc,
    i: int,
    q: Path,
)
    requires
        row is Object,
        forall|j: int| 0 <= j < fields.len() ==> replay::place(#[trigger] fields[j]).len() > 0,
        tree::separate(replay::writes(fields, reverse)),
        tree::run(row, replay::writes(fields, reverse)) == Some(made),
    ensures
        0 <= i < fields.len() ==> tree::lookup(made, replay::place(fields[i])) == (if reverse {
            fields[i].old
        } else {
            fields[i].new
        }),
        (forall|j: int|
            0 <= j < fields.len() ==> !tree::nested(replay::place(#[trigger] fields[j]), q))
            ==> tree::lookup(made, q) == tree::lookup(row, q),
{
    let ws = replay::writes(fields, reverse);
    assert forall|j: int| 0 <= j < ws.len() implies (#[trigger] ws[j]).0.len() > 0 by {
        assert(ws[j].0 == replay::place(fields[j]));
    }
    lemma_separate_writes(row, ws, made, i, q);
    if 0 <= i < fields.len() {
        assert(ws[i].0 == replay::place(fields[i]));
    }
    if forall|j: int| 0 <= j < fields.len() ==> !tree::nested(replay::place(#[trigger] fields[j]), q) {
        assert forall|j: int| 0 <= j < ws.len() implies !tree::nested((#[trigger] ws[j]).0, q) by {
            assert(!tree::nested(replay::place(fields[j]), q));
        }
    }
}

proof fn lemma_separate_writes(
    row: Doc,
    ws: Seq<(Path, Option<Doc>)>,
    made: Doc,
    i: int,
    q: Path,
)
    requires
        row is Object,
        forall|j: int| 0 <= j < ws.len() ==> (#[trigger] ws[j]).0.len() > 0,
        tree::separate(ws),
        tree::run(row, ws) == Some(made),
    ensures
        0 <= i < ws.len() ==> tree::lookup(made, ws[i].0) == ws[i].1,
        (forall|j: int| 0 <= j < ws.len() ==> !tree::nested((#[trigger] ws[j]).0, q))
            ==> tree::lookup(made, q) == tree::lookup(row, q),
        made is Object,
    decreases ws.len(),
{
    if ws.len() > 0 {
        let n = ws.len() - 1;
        let front = ws.drop_last();
        let w = ws[n];
        assert(front.push(w) =~= ws);
        tree::law_run(row, front, w);
        let mid = tree::run(row, front)->0;
        assert forall|j: int| 0 <= j < front.len() implies (#[trigger] front[j]).0.len() > 0 by {
            assert(ws[j].0.len() > 0);
        }
        assert forall|x: int, y: int|
            0 <= x < front.len() && 0 <= y < front.len() && x != y implies !tree::nested(
            (#[trigger] front[x]).0,
            (#[trigger] front[y]).0,
        ) by {
            assert(!tree::nested(ws[x].0, ws[y].0));
        }
        lemma_separate_writes(row, front, mid, i, q);
        tree::law_put_then_lookup(mid, w.0, w.1);
        if 0 <= i < n {
            assert(front[i] == ws[i]);
            assert(!tree::nested(ws[n].0, ws[i].0));
            tree::law_put_elsewhere(mid, w.0, w.1, ws[i].0);
        }
        if forall|j: int| 0 <= j < ws.len() ==> !tree::nested((#[trigger] ws[j]).0, q) {
            assert forall|j: int| 0 <= j < front.len() implies !tree::nested(
                (#[trigger] front[j]).0,
                q,
            ) by {
                assert(!tree::nested(ws[j].0, q));
            }
            assert(!tree::nested(ws[n].0, q));
            tree::law_put_elsewhere(mid, w.0, w.1, q);
        }
    }
}

} // verus!
