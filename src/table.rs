use vstd::prelude::*;
use vstd::string::StringExecFns;
use crate::record::{PlanView, RecordPlan, plan_at};

verus! {

/// What an attribute of an output record was last set from.
pub enum Cell {
    /// The interval tag.
    Interval(Seq<char>),
    /// The timestamp text.
    Timestamp(Seq<char>),
    /// A metric's raw value; a registered transform of that metric maps it.
    Metric(Seq<char>, int),
    /// A grouping value under its field name; a registered transform of that field maps it.
    Group(Seq<char>, Seq<char>),
}

/// Output records: (record id, attribute name) to what the attribute holds.
pub type Records = Map<(Seq<char>, Seq<char>), Cell>;

pub type AttributeWrite = ((Seq<char>, Seq<char>), Cell);

/// The attribute writes of one planned record update, in order.
pub open spec fn plan_writes(p: PlanView, value: int) -> Seq<AttributeWrite> {
    seq![
        ((p.id, seq!['i', 'n', 't', 'e', 'r', 'v', 'a', 'l']), Cell::Interval(p.interval)),
        ((p.id, seq!['t', 'i', 'm', 'e', 's', 't', 'a', 'm', 'p']), Cell::Timestamp(p.timestamp)),
        ((p.id, p.metric), Cell::Metric(p.metric, value)),
    ] + Seq::new(p.groups.len(), |i: int| ((p.id, p.groups[i].0), Cell::Group(p.groups[i].0, p.groups[i].1)))
}

/// The attribute writes of a delta stream of (key, new value) pairs; skipped keys write nothing.
pub open spec fn stream_writes(deltas: Seq<(Seq<char>, int)>, fields: Seq<Seq<char>>) -> Seq<AttributeWrite>
    decreases deltas.len(),
{
    if deltas.len() == 0 {
        Seq::<AttributeWrite>::empty()
    } else {
        let d = deltas.last();
        stream_writes(deltas.drop_last(), fields) + match plan_at(d.0, fields) {
            Some(p) => plan_writes(p, d.1),
            None => Seq::<AttributeWrite>::empty(),
        }
    }
}

pub open spec fn apply_writes(r: Records, ws: Seq<AttributeWrite>) -> Records
    decreases ws.len(),
{
    if ws.len() == 0 {
        r
    } else {
        apply_writes(r, ws.drop_last()).insert(ws.last().0, ws.last().1)
    }
}

/// The output records after processing a delta stream.
pub open spec fn materialize(r: Records, deltas: Seq<(Seq<char>, int)>, fields: Seq<Seq<char>>) -> Records {
    apply_writes(r, stream_writes(deltas, fields))
}

pub open spec fn written(ws: Seq<AttributeWrite>, c: (Seq<char>, Seq<char>)) -> bool {
    exists|i: int| 0 <= i < ws.len() && (#[trigger] ws[i]).0 == c
}

proof fn lemma_apply_writes(r1: Records, r2: Records, ws: Seq<AttributeWrite>, c: (Seq<char>, Seq<char>))
    ensures
        written(ws, c) ==> apply_writes(r1, ws).contains_key(c) && apply_writes(r2, ws).contains_key(c)
            && apply_writes(r1, ws)[c] == apply_writes(r2, ws)[c],
        !written(ws, c) ==> apply_writes(r1, ws).contains_key(c) == r1.contains_key(c)
            && (r1.contains_key(c) ==> apply_writes(r1, ws)[c] == r1[c]),
    decreases ws.len(),
{
    if ws.len() > 0 {
        let init = ws.drop_last();
        lemma_apply_writes(r1, r2, init, c);
        if ws.last().0 != c {
            if written(ws, c) {
                let i = choose|i: int| 0 <= i < ws.len() && (#[trigger] ws[i]).0 == c;
                assert(init[i].0 == c);
            }
            if written(init, c) {
                let i = choose|i: int| 0 <= i < init.len() && (#[trigger] init[i]).0 == c;
                assert(ws[i].0 == c);
            }
        } else {
            assert(ws[ws.len() - 1].0 == c);
        }
    }
}

/// Processing the same delta stream a second time leaves the output records as the
/// first pass left them: every write is an overwrite keyed by record id and attribute.
pub proof fn lemma_materialize_idempotent(r: Records, deltas: Seq<(Seq<char>, int)>, fields: Seq<Seq<char>>)
    ensures
        materialize(materialize(r, deltas, fields), deltas, fields) == materialize(r, deltas, fields),
{
    let ws = stream_writes(deltas, fields);
    let once = apply_writes(r, ws);
    let twice = apply_writes(once, ws);
    assert forall|c: (Seq<char>, Seq<char>)| #[trigger] twice.contains_key(c) == once.contains_key(c) by {
        lemma_apply_writes(once, r, ws, c);
        lemma_apply_writes(r, once, ws, c);
    }
    assert forall|c: (Seq<char>, Seq<char>)| twice.contains_key(c) implies #[trigger] twice[c] == once[c] by {
        lemma_apply_writes(once, r, ws, c);
        lemma_apply_writes(r, once, ws, c);
    }
    assert(twice =~= once);
}

/// What one attribute write of a record update sets.
pub enum Attribute {
    Interval(String),
    Timestamp(String),
    /// The delta's value, through the metric's transform if one is registered.
    Metric(String),
    /// (field name, raw grouping value), through the field's transform if one is registered.
    Group(String, String),
}

/// One attribute write: record id, attribute name, and what it is set to.
pub struct RecordWrite {
    pub id: String,
    pub name: String,
    pub value: Attribute,
}

/// A write as a model write, the delta's value being `v`.
pub open spec fn write_view(w: RecordWrite, v: int) -> AttributeWrite {
    (
        (w.id@, w.name@),
        match w.value {
            Attribute::Interval(s) => Cell::Interval(s@),
            Attribute::Timestamp(s) => Cell::Timestamp(s@),
            Attribute::Metric(m) => Cell::Metric(m@, v),
            Attribute::Group(f, g) => Cell::Group(f@, g@),
        },
    )
}

pub open spec fn writes_view(ws: Seq<RecordWrite>, v: int) -> Seq<AttributeWrite> {
    ws.map_values(|w: RecordWrite| write_view(w, v))
}

/// The attribute writes of a record update, in the order they are made.
pub fn record_writes(plan: &RecordPlan) -> (r: Vec<RecordWrite>)
    ensures
        forall|v: int| #[trigger] writes_view(r@, v) == plan_writes(plan@, v),
{
    proof {
        reveal_strlit("interval");
        reveal_strlit("timestamp");
    }
    let mut out: Vec<RecordWrite> = Vec::new();
    out.push(RecordWrite {
        id: plan.id.clone(),
        name: String::from_str("interval"),
        value: Attribute::Interval(plan.interval.clone()),
    });
    out.push(RecordWrite {
        id: plan.id.clone(),
        name: String::from_str("timestamp"),
        value: Attribute::Timestamp(plan.timestamp.clone()),
    });
    out.push(RecordWrite {
        id: plan.id.clone(),
        name: plan.metric.clone(),
        value: Attribute::Metric(plan.metric.clone()),
    });
    let ghost p = plan@;
    assert forall|v: int| #[trigger] writes_view(out@, v) =~= plan_writes(p, v).subrange(0, 3) by {
        assert("interval"@ =~= seq!['i', 'n', 't', 'e', 'r', 'v', 'a', 'l']);
        assert("timestamp"@ =~= seq!['t', 'i', 'm', 'e', 's', 't', 'a', 'm', 'p']);
    }
    let mut i: usize = 0;
    while i < plan.groups.len()
        invariant
            i <= plan.groups@.len(),
            p == plan@,
            out@.len() == 3 + i,
            forall|v: int| #[trigger] writes_view(out@, v) =~= plan_writes(p, v).subrange(0, 3 + i),
        decreases plan.groups@.len() - i,
    {
        let field = plan.groups[i].0.clone();
        let w = RecordWrite {
            id: plan.id.clone(),
            name: plan.groups[i].0.clone(),
            value: Attribute::Group(field, plan.groups[i].1.clone()),
        };
        let ghost before = out@;
        out.push(w);
        assert(p.groups[i as int] == (plan.groups@[i as int].0@, plan.groups@[i as int].1@));
        assert forall|v: int| #[trigger] writes_view(out@, v) =~= plan_writes(p, v).subrange(0, 3 + i + 1) by {
            assert(writes_view(out@, v) =~= writes_view(before, v).push(write_view(w, v)));
            assert(plan_writes(p, v).subrange(0, 3 + i + 1) =~= plan_writes(p, v).subrange(0, 3 + i).push(plan_writes(p, v)[3 + i]));
        }
        i = i + 1;
    }
    assert forall|v: int| #[trigger] writes_view(out@, v) == plan_writes(p, v) by {
        assert(plan_writes(p, v).subrange(0, 3 + i as int) =~= plan_writes(p, v));
    }
    out
}

} // verus!
