use vstd::prelude::*;
use vstd::string::{StrSliceExecFns, StringExecFns};
use crate::decimal::{decimal_of, lemma_decimal_shape, push_decimal};
use crate::keys::{bucket_key, day_tag, group_suffix, hour_tag, total_key, total_tag};
use crate::text::{free_of, join, join_from, lemma_join_empty, lemma_split_concat, lemma_split_free, lemma_split_join, split, split_at_char};

verus! {

/// The fields that a composite key carries, as text.
pub struct DecodedKey {
    /// The entity, segment 0.
    pub entity: String,
    /// The interval tag: `total`, `day` or `hour`.
    pub interval: String,
    /// The bucket timestamp, `0` for `total`.
    pub timestamp: String,
    pub metric: String,
    /// The grouping values joined with `-`; empty when there are none.
    pub grouping: String,
}

/// What one delta writes into its output record.
pub struct RecordPlan {
    /// The entity type of the output table, segment 0 of the key.
    pub entity: String,
    pub id: String,
    pub interval: String,
    pub timestamp: String,
    pub metric: String,
    /// (field name, raw value) for each grouping value, in order.
    pub groups: Vec<(String, String)>,
}

pub struct PlanView {
    pub entity: Seq<char>,
    pub id: Seq<char>,
    pub interval: Seq<char>,
    pub timestamp: Seq<char>,
    pub metric: Seq<char>,
    pub groups: Seq<(Seq<char>, Seq<char>)>,
}

impl View for RecordPlan {
    type V = PlanView;

    open spec fn view(&self) -> PlanView {
        PlanView {
            entity: self.entity@,
            id: self.id@,
            interval: self.interval@,
            timestamp: self.timestamp@,
            metric: self.metric@,
            groups: self.groups@.map_values(|p: (String, String)| (p.0@, p.1@)),
        }
    }
}

pub open spec fn strings_view(v: Seq<String>) -> Seq<Seq<char>> {
    v.map_values(|s: String| s@)
}

/// Decodes a composite key into (entity, interval tag, timestamp, metric, grouping token),
/// or `None` for a key that is too short or has an unknown interval tag.
pub open spec fn decode_at(key: Seq<char>) -> Option<(Seq<char>, Seq<char>, Seq<char>, Seq<char>, Seq<char>)> {
    let segs = split(key, ':');
    if segs.len() < 3 {
        None
    } else if segs[1] == total_tag() {
        Some((segs[0], segs[1], seq!['0'], segs[2], join(segs.subrange(3, segs.len() as int), '-')))
    } else if segs[1] == day_tag() || segs[1] == hour_tag() {
        if segs.len() < 4 {
            None
        } else {
            Some((segs[0], segs[1], segs[2], segs[3], join(segs.subrange(4, segs.len() as int), '-')))
        }
    } else {
        None
    }
}

/// `<timestamp>-<interval>` or `<timestamp>-<interval>-<grouping>`.
pub open spec fn record_id_of(timestamp: Seq<char>, interval: Seq<char>, grouping: Seq<char>) -> Seq<char> {
    if grouping.len() == 0 {
        timestamp + seq!['-'] + interval
    } else {
        timestamp + seq!['-'] + interval + seq!['-'] + grouping
    }
}

/// The grouping values of a grouping token.
pub open spec fn grouping_values_of(grouping: Seq<char>) -> Seq<Seq<char>> {
    if grouping.len() == 0 {
        Seq::<Seq<char>>::empty()
    } else {
        split(grouping, '-')
    }
}

/// Field name of the grouping value at position `i`: the supplied name, or `group<i+1>`.
pub open spec fn field_name_of(i: int, fields: Seq<Seq<char>>) -> Seq<char> {
    if i < fields.len() {
        fields[i]
    } else {
        seq!['g', 'r', 'o', 'u', 'p'] + decimal_of(i + 1)
    }
}

pub open spec fn named_groups(values: Seq<Seq<char>>, fields: Seq<Seq<char>>) -> Seq<(Seq<char>, Seq<char>)> {
    Seq::new(values.len(), |i: int| (field_name_of(i, fields), values[i]))
}

/// The record write that the delta with `key` makes.
pub open spec fn plan_at(key: Seq<char>, fields: Seq<Seq<char>>) -> Option<PlanView> {
    match decode_at(key) {
        None => None,
        Some(d) => Some(
            PlanView {
                entity: d.0,
                id: record_id_of(d.2, d.1, d.4),
                interval: d.1,
                timestamp: d.2,
                metric: d.3,
                groups: named_groups(grouping_values_of(d.4), fields),
            },
        ),
    }
}

/// Splits a composite key into its fields; `None` for a malformed key or an unknown interval.
pub fn decode_key(key: &str) -> (r: Option<DecodedKey>)
    ensures
        match r {
            Some(d) => decode_at(key@) == Some((d.entity@, d.interval@, d.timestamp@, d.metric@, d.grouping@)),
            None => decode_at(key@) is None,
        },
{
    proof {
        reveal_strlit("total");
        reveal_strlit("day");
        reveal_strlit("hour");
        reveal_strlit("0");
        reveal_strlit("-");
    }
    let segs = split_at_char(key, ':');
    let ghost sv = strings_view(segs@);
    assert(sv == split(key@, ':'));
    if segs.len() < 3 {
        return None;
    }
    let total = String::from_str("total");
    let day = String::from_str("day");
    let hour = String::from_str("hour");
    assert(total@ =~= total_tag());
    assert(day@ =~= day_tag());
    assert(hour@ =~= hour_tag());
    assert(sv[1] == segs@[1]@);
    if segs[1] == total {
        let g = join_from(&segs, 3, "-");
        assert(sv.subrange(3, sv.len() as int).len() == 0 ==> sv.subrange(3, sv.len() as int) =~= Seq::<Seq<char>>::empty());
        Some(DecodedKey {
            entity: segs[0].clone(),
            interval: segs[1].clone(),
            timestamp: String::from_str("0"),
            metric: segs[2].clone(),
            grouping: g,
        })
    } else if segs[1] == day || segs[1] == hour {
        if segs.len() < 4 {
            return None;
        }
        let g = join_from(&segs, 4, "-");
        assert(sv.subrange(4, sv.len() as int).len() == 0 ==> sv.subrange(4, sv.len() as int) =~= Seq::<Seq<char>>::empty());
        Some(DecodedKey {
            entity: segs[0].clone(),
            interval: segs[1].clone(),
            timestamp: segs[2].clone(),
            metric: segs[3].clone(),
            grouping: g,
        })
    } else {
        None
    }
}

/// The output record id of a decoded key.
pub fn record_id(d: &DecodedKey) -> (r: String)
    ensures
        r@ == record_id_of(d.timestamp@, d.interval@, d.grouping@),
{
    proof {
        reveal_strlit("-");
    }
    let mut out = d.timestamp.clone();
    out.append("-");
    out.append(d.interval.as_str());
    if d.grouping.as_str().unicode_len() > 0 {
        out.append("-");
        out.append(d.grouping.as_str());
    }
    assert(out@ =~= record_id_of(d.timestamp@, d.interval@, d.grouping@));
    out
}

/// The grouping values of a grouping token, split back at `-`.
pub fn grouping_values(grouping: &str) -> (r: Vec<String>)
    ensures
        strings_view(r@) == grouping_values_of(grouping@),
{
    if grouping.unicode_len() == 0 {
        let r: Vec<String> = Vec::new();
        assert(strings_view(r@) =~= Seq::<Seq<char>>::empty());
        r
    } else {
        split_at_char(grouping, '-')
    }
}

/// The field name for the grouping value at position `i`.
pub fn group_field_name(i: usize, fields: &Vec<String>) -> (r: String)
    requires
        i < usize::MAX,
    ensures
        r@ == field_name_of(i as int, strings_view(fields@)),
{
    if i < fields.len() {
        fields[i].clone()
    } else {
        proof {
            reveal_strlit("group");
        }
        let mut out = String::from_str("group");
        push_decimal(&mut out, (i + 1) as i128);
        assert(out@ =~= field_name_of(i as int, strings_view(fields@)));
        out
    }
}

/// Decodes the key of one delta and names its grouping values; `None` when the key is skipped.
pub fn plan_delta(key: &str, group_fields: &Vec<String>) -> (r: Option<RecordPlan>)
    ensures
        match r {
            Some(p) => plan_at(key@, strings_view(group_fields@)) == Some(p@),
            None => plan_at(key@, strings_view(group_fields@)) is None,
        },
{
    let d = match decode_key(key) {
        Some(d) => d,
        None => return None,
    };
    let id = record_id(&d);
    let values = grouping_values(d.grouping.as_str());
    let ghost fv = strings_view(group_fields@);
    let ghost vv = strings_view(values@);
    let mut groups: Vec<(String, String)> = Vec::new();
    let mut i: usize = 0;
    while i < values.len()
        invariant
            i <= values@.len(),
            vv == strings_view(values@),
            fv == strings_view(group_fields@),
            groups@.map_values(|p: (String, String)| (p.0@, p.1@)) =~= named_groups(vv, fv).subrange(0, i as int),
        decreases values@.len() - i,
    {
        let name = group_field_name(i, group_fields);
        let value = values[i].clone();
        assert(value@ == vv[i as int]);
        let ghost before = groups@.map_values(|p: (String, String)| (p.0@, p.1@));
        groups.push((name, value));
        assert(groups@.map_values(|p: (String, String)| (p.0@, p.1@)) =~= before.push((field_name_of(i as int, fv), vv[i as int])));
        i = i + 1;
    }
    assert(named_groups(vv, fv).subrange(0, i as int) =~= named_groups(vv, fv));
    let p = RecordPlan {
        entity: d.entity,
        id,
        interval: d.interval,
        timestamp: d.timestamp,
        metric: d.metric,
        groups,
    };
    assert(p@.groups == named_groups(grouping_values_of(d.grouping@), fv));
    Some(p)
}

proof fn lemma_split_front(x: Seq<char>, y: Seq<char>)
    requires
        free_of(x, ':'),
    ensures
        split(x + seq![':'] + y, ':') == seq![x] + split(y, ':'),
{
    assert(x + seq![':'] + y == x.push(':') + y);
    lemma_split_concat(x, y, ':');
    lemma_split_free(x, ':');
}

proof fn lemma_split_metric(metric: Seq<char>, groups: Seq<Seq<char>>)
    requires
        free_of(metric, ':'),
        forall|i: int| 0 <= i < groups.len() ==> free_of(#[trigger] groups[i], ':'),
    ensures
        split(metric + group_suffix(groups), ':') == seq![metric] + groups,
{
    if groups.len() == 0 {
        assert(metric + group_suffix(groups) =~= metric);
        lemma_split_free(metric, ':');
        assert(seq![metric] + groups =~= seq![metric]);
    } else {
        assert(metric + group_suffix(groups) =~= metric.push(':') + join(groups, ':'));
        lemma_split_concat(metric, join(groups, ':'), ':');
        lemma_split_free(metric, ':');
        lemma_split_join(groups, ':');
    }
}

/// Clean key fields: no `:` in entity or metric; grouping values non-empty, without `:` or `-`.
pub open spec fn clean_fields(entity: Seq<char>, metric: Seq<char>, groups: Seq<Seq<char>>) -> bool {
    &&& free_of(entity, ':')
    &&& free_of(metric, ':')
    &&& forall|i: int|
        0 <= i < groups.len() ==> (#[trigger] groups[i]).len() > 0 && free_of(groups[i], ':') && free_of(
            groups[i],
            '-',
        )
}

proof fn lemma_bucket_round_trip(e: Seq<char>, tag: Seq<char>, b: int, metric: Seq<char>, groups: Seq<Seq<char>>)
    requires
        clean_fields(e, metric, groups),
        tag == day_tag() || tag == hour_tag(),
    ensures
        decode_at(bucket_key(e, tag, b, metric, groups)) == Some((e, tag, decimal_of(b), metric, join(groups, '-'))),
{
    let rest = metric + group_suffix(groups);
    let d = decimal_of(b);
    lemma_decimal_shape(b);
    assert(free_of(d, ':'));
    assert(free_of(tag, ':'));
    assert(bucket_key(e, tag, b, metric, groups) =~= e + seq![':'] + (tag + seq![':'] + (d + seq![':'] + rest)));
    lemma_split_metric(metric, groups);
    lemma_split_front(d, rest);
    lemma_split_front(tag, d + seq![':'] + rest);
    lemma_split_front(e, tag + seq![':'] + (d + seq![':'] + rest));
    let segs = split(bucket_key(e, tag, b, metric, groups), ':');
    assert(segs =~= seq![e, tag, d, metric] + groups);
    assert(segs.subrange(4, segs.len() as int) =~= groups);
    assert(tag != total_tag());
}

/// Decoding a key built from clean fields gives back its entity, interval, timestamp
/// (`0` for totals), its metric and its grouping values in order.
pub proof fn lemma_key_round_trip(e: Seq<char>, metric: Seq<char>, groups: Seq<Seq<char>>, b: int)
    requires
        clean_fields(e, metric, groups),
    ensures
        decode_at(total_key(e, metric, groups)) == Some((e, total_tag(), decimal_of(0), metric, join(groups, '-'))),
        decode_at(bucket_key(e, day_tag(), b, metric, groups)) == Some((e, day_tag(), decimal_of(b), metric, join(groups, '-'))),
        decode_at(bucket_key(e, hour_tag(), b, metric, groups)) == Some((e, hour_tag(), decimal_of(b), metric, join(groups, '-'))),
        grouping_values_of(join(groups, '-')) == groups,
{
    lemma_bucket_round_trip(e, day_tag(), b, metric, groups);
    lemma_bucket_round_trip(e, hour_tag(), b, metric, groups);
    let rest = metric + group_suffix(groups);
    assert(free_of(total_tag(), ':'));
    assert(total_key(e, metric, groups) =~= e + seq![':'] + (total_tag() + seq![':'] + rest));
    lemma_split_metric(metric, groups);
    lemma_split_front(total_tag(), rest);
    lemma_split_front(e, total_tag() + seq![':'] + rest);
    let segs = split(total_key(e, metric, groups), ':');
    assert(segs =~= seq![e, total_tag(), metric] + groups);
    assert(segs.subrange(3, segs.len() as int) =~= groups);
    assert(decimal_of(0) =~= seq!['0']);
    lemma_join_empty(groups, '-');
    if groups.len() > 0 {
        lemma_split_join(groups, '-');
    } else {
        assert(groups =~= Seq::<Seq<char>>::empty());
    }
}

/// Grouping values beyond the supplied field names are named `group<k>`, `k` counting
/// from one over all the grouping values; the others take the supplied names in order.
pub proof fn lemma_group_field_names(key: Seq<char>, fields: Seq<Seq<char>>)
    requires
        plan_at(key, fields) is Some,
    ensures
        forall|i: int|
            0 <= i < plan_at(key, fields).unwrap().groups.len() ==> (#[trigger] plan_at(key, fields).unwrap().groups[i]).0 == if i < fields.len() {
                fields[i]
            } else {
                seq!['g', 'r', 'o', 'u', 'p'] + decimal_of(i + 1)
            },
{
}

} // verus!
