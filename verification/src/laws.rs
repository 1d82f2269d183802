use vstd::prelude::*;
use crate::record::{Rec, spec_tok};
use crate::store::{OrderRec, map_pos, spec_hdr_pos, spec_distinct_vals, contains_seq};
use crate::query::{spec_eval_condition, spec_eval_groups, spec_group_eval, spec_filter_keys,
    spec_lead_key_in, EvalAcc};
use crate::strutil::{spec_split, spec_parse_int};

verus! {

/// Schema round-trip: once a header for a table is registered, resolving
/// a field of any record of that table by name reads the record's token
/// at the position the header declared for the name (its last
/// occurrence).
pub proof fn lemma_schema_round_trip(s: OrderRec, hdr: Seq<String>, rec: Rec, field: Seq<char>)
    requires
        s.tables.spec_get(spec_tok(hdr, 2)) matches Some(t) && t.recs@ == hdr && forall|
            nm: Seq<char>,
        | #[trigger] map_pos(t.index, nm) == spec_hdr_pos(hdr, nm),
        rec.toks@.len() > 2,
        rec.spec_field(2) == spec_tok(hdr, 2),
        spec_hdr_pos(hdr, field) >= 0,
    ensures
        s.spec_resolve(rec, field) == spec_tok(rec.toks@, spec_hdr_pos(hdr, field)),
{
    let t = s.tables.spec_get(spec_tok(hdr, 2))->0;
    assert(map_pos(t.index, field) == spec_hdr_pos(hdr, field));
    assert(t.index.spec_get(field) matches Some(p) && p == spec_hdr_pos(hdr, field));
}

/// AND/OR semantics, two groups: a condition of two evaluable AND-groups
/// matches exactly the chains of the first group's union that share a
/// leading key with the second group's union, and matches nothing at all
/// when either union, or that intersection, is empty.
pub proof fn lemma_and_or_two_groups(s: OrderRec, cond: Seq<char>)
    requires
        spec_split(cond, ',').len() == 2,
        spec_group_eval(s, spec_split(spec_split(cond, ',')[0], '|'), 0, false, Seq::empty()).0,
        spec_group_eval(s, spec_split(spec_split(cond, ',')[1], '|'), 0, false, Seq::empty()).0,
    ensures
        ({
            let u1 = spec_group_eval(
                s,
                spec_split(spec_split(cond, ',')[0], '|'),
                0,
                false,
                Seq::empty(),
            ).1;
            let u2 = spec_group_eval(
                s,
                spec_split(spec_split(cond, ',')[1], '|'),
                0,
                false,
                Seq::empty(),
            ).1;
            spec_eval_condition(s, cond) == if u1.len() == 0 || u2.len() == 0 {
                EvalAcc::Dead
            } else {
                let f = spec_filter_keys(u1, u2);
                if f.len() == 0 {
                    EvalAcc::Dead
                } else {
                    EvalAcc::Chains(f)
                }
            }
        }),
{
    let groups = spec_split(cond, ',');
    let u1 = spec_group_eval(s, spec_split(groups[0], '|'), 0, false, Seq::empty()).1;
    let u2 = spec_group_eval(s, spec_split(groups[1], '|'), 0, false, Seq::empty()).1;
    if u1.len() == 0 {
        assert(spec_eval_groups(s, groups, 0, EvalAcc::Unseeded) == EvalAcc::Dead);
    } else {
        assert(spec_eval_groups(s, groups, 0, EvalAcc::Unseeded) == spec_eval_groups(
            s,
            groups,
            1,
            EvalAcc::Chains(u1),
        ));
        if u2.len() == 0 {
            assert(spec_eval_groups(s, groups, 1, EvalAcc::Chains(u1)) == EvalAcc::Dead);
        } else {
            let f = spec_filter_keys(u1, u2);
            if f.len() == 0 {
                assert(spec_eval_groups(s, groups, 1, EvalAcc::Chains(u1)) == EvalAcc::Dead);
            } else {
                assert(spec_eval_groups(s, groups, 1, EvalAcc::Chains(u1)) == spec_eval_groups(
                    s,
                    groups,
                    2,
                    EvalAcc::Chains(f),
                ));
            }
        }
    }
}

/// AND is intersection by leading key: a chain survives the filter
/// exactly when it came from the first union and a chain with its
/// leading key appears in the second.
pub proof fn lemma_filter_keys_mem(prev: Seq<Seq<Rec>>, u: Seq<Seq<Rec>>, c: Seq<Rec>)
    ensures
        spec_filter_keys(prev, u).contains(c) <==> (prev.contains(c) && c.len() > 0
            && spec_lead_key_in(u, c[0].spec_field(1))),
    decreases prev.len(),
{
    if prev.len() == 0 {
        if spec_filter_keys(prev, u).contains(c) {
            let i = choose|i: int|
                0 <= i < spec_filter_keys(prev, u).len() && spec_filter_keys(prev, u)[i] == c;
            assert(false);
        }
        if prev.contains(c) {
            let i = choose|i: int| 0 <= i < prev.len() && prev[i] == c;
            assert(false);
        }
    } else {
        lemma_filter_keys_mem(prev.drop_last(), u, c);
        let r0 = spec_filter_keys(prev.drop_last(), u);
        let last = prev.last();
        let keep = last.len() > 0 && spec_lead_key_in(u, last[0].spec_field(1));
        // membership across push and drop_last
        if keep {
            lemma_contains_push(r0, last, c);
        }
        lemma_contains_drop_last(prev, c);
    }
}

/// Membership in a pushed sequence.
proof fn lemma_contains_push<A>(s: Seq<A>, x: A, c: A)
    ensures
        s.push(x).contains(c) <==> (s.contains(c) || c == x),
{
    if s.push(x).contains(c) {
        let i = choose|i: int| 0 <= i < s.push(x).len() && s.push(x)[i] == c;
        if i < s.len() {
            assert(s[i] == c);
        }
    }
    if s.contains(c) {
        let i = choose|i: int| 0 <= i < s.len() && s[i] == c;
        assert(s.push(x)[i] == c);
    }
    if c == x {
        assert(s.push(x)[s.len() as int] == c);
    }
}

/// Membership with the last element split off.
proof fn lemma_contains_drop_last<A>(s: Seq<A>, c: A)
    requires
        s.len() > 0,
    ensures
        s.contains(c) <==> (s.drop_last().contains(c) || c == s.last()),
{
    if s.contains(c) {
        let i = choose|i: int| 0 <= i < s.len() && s[i] == c;
        if i < s.len() - 1 {
            assert(s.drop_last()[i] == c);
        }
    }
    if s.drop_last().contains(c) {
        let i = choose|i: int| 0 <= i < s.drop_last().len() && s.drop_last()[i] == c;
        assert(s[i] == c);
    }
}

/// Status derivation: the summary's order state is the maximum of zero
/// and every parseable `OrderSt` a transition of the chain carries, and
/// it is attained unless it is zero.
pub proof fn lemma_summary_peak(s: OrderRec, list: Seq<Rec>)
    ensures
        s.spec_summary(list).ordst >= 0,
        forall|i: int|
            0 <= i < list.len() && (#[trigger] list[i]).spec_is_ord() && (match spec_parse_int(
                s.spec_resolve(list[i], "OrderSt"@),
            ) {
                Some(v) => i64::MIN <= v <= i64::MAX,
                None => false,
            }) ==> s.spec_summary(list).ordst >= spec_parse_int(
                s.spec_resolve(list[i], "OrderSt"@),
            )->0,
        s.spec_summary(list).ordst == 0 || exists|i: int|
            0 <= i < list.len() && (#[trigger] list[i]).spec_is_ord() && spec_parse_int(
                s.spec_resolve(list[i], "OrderSt"@),
            ) == Some(s.spec_summary(list).ordst),
    decreases list.len(),
{
    if list.len() > 0 {
        lemma_summary_peak(s, list.drop_last());
        let p = s.spec_summary(list.drop_last());
        let st = s.spec_summary(list);
        assert forall|i: int|
            0 <= i < list.len() && (#[trigger] list[i]).spec_is_ord() && (match spec_parse_int(
                s.spec_resolve(list[i], "OrderSt"@),
            ) {
                Some(v) => i64::MIN <= v <= i64::MAX,
                None => false,
            }) implies st.ordst >= spec_parse_int(s.spec_resolve(list[i], "OrderSt"@))->0 by {
            if i < list.len() - 1 {
                assert(list.drop_last()[i] == list[i]);
                assert(p.ordst >= spec_parse_int(s.spec_resolve(list[i], "OrderSt"@))->0);
            } else {
                assert(list[i] == list.last());
            }
        }
        if st.ordst != 0 {
            if st.ordst == p.ordst {
                let w = choose|i: int|
                    0 <= i < list.drop_last().len() && (#[trigger] list.drop_last()[i])
                        .spec_is_ord() && spec_parse_int(
                        s.spec_resolve(list.drop_last()[i], "OrderSt"@),
                    ) == Some(p.ordst);
                assert(list[w] == list.drop_last()[w]);
                assert(0 <= w < list.len() && list[w].spec_is_ord() && spec_parse_int(
                    s.spec_resolve(list[w], "OrderSt"@),
                ) == Some(st.ordst));
            } else {
                assert(list.last().spec_is_ord());
                assert(spec_parse_int(s.spec_resolve(list.last(), "OrderSt"@)) == Some(st.ordst));
                assert(0 <= list.len() - 1 < list.len() && list[list.len() - 1].spec_is_ord()
                    && spec_parse_int(s.spec_resolve(list[list.len() - 1], "OrderSt"@)) == Some(
                    st.ordst,
                ));
            }
        }
    }
}

/// Distinct-value count: a value stands among the distinct values of a
/// table's field exactly when it is non-empty and some request of the
/// table carries it, and no value appears twice.
pub proof fn lemma_distinct_vals_mem(reqs: Seq<Rec>, table: Seq<char>, pos: int, v: Seq<char>)
    ensures
        contains_seq(spec_distinct_vals(reqs, table, pos), v) <==> (v.len() > 0 && exists|j: int|
            0 <= j < reqs.len() && (#[trigger] reqs[j]).toks@.len() > 2 && spec_tok(
                reqs[j].toks@,
                2,
            ) == table && spec_tok(reqs[j].toks@, pos) == v),
    decreases reqs.len(),
{
    if reqs.len() == 0 {
        if contains_seq(spec_distinct_vals(reqs, table, pos), v) {
            let i = choose|i: int|
                0 <= i < spec_distinct_vals(reqs, table, pos).len() && spec_distinct_vals(
                    reqs,
                    table,
                    pos,
                )[i] == v;
            assert(false);
        }
    } else {
        lemma_distinct_vals_mem(reqs.drop_last(), table, pos, v);
        let prev = spec_distinct_vals(reqs.drop_last(), table, pos);
        let rec = reqs.last();
        let cur = spec_distinct_vals(reqs, table, pos);
        let val = spec_tok(rec.toks@, pos);
        let hit = rec.toks@.len() > 2 && spec_tok(rec.toks@, 2) == table && val.len() > 0
            && !contains_seq(prev, val);
        if hit {
            lemma_contains_seq_push(prev, val, v);
        }
        if contains_seq(cur, v) {
            assert(v.len() > 0 && exists|j: int|
                0 <= j < reqs.len() && (#[trigger] reqs[j]).toks@.len() > 2 && spec_tok(
                    reqs[j].toks@,
                    2,
                ) == table && spec_tok(reqs[j].toks@, pos) == v) by {
                if contains_seq(prev, v) {
                    let j = choose|j: int|
                        0 <= j < reqs.drop_last().len() && (#[trigger] reqs.drop_last()[j]).toks@
                            .len() > 2 && spec_tok(reqs.drop_last()[j].toks@, 2) == table
                            && spec_tok(reqs.drop_last()[j].toks@, pos) == v;
                    assert(reqs[j] == reqs.drop_last()[j]);
                    assert(0 <= j < reqs.len() && reqs[j].toks@.len() > 2 && spec_tok(
                        reqs[j].toks@,
                        2,
                    ) == table && spec_tok(reqs[j].toks@, pos) == v);
                } else {
                    assert(hit && v == val);
                    assert(0 <= reqs.len() - 1 < reqs.len() && reqs[reqs.len() - 1].toks@.len()
                        > 2 && spec_tok(reqs[reqs.len() - 1].toks@, 2) == table && spec_tok(
                        reqs[reqs.len() - 1].toks@,
                        pos,
                    ) == v);
                }
            }
        }
        if v.len() > 0 && exists|j: int|
            0 <= j < reqs.len() && (#[trigger] reqs[j]).toks@.len() > 2 && spec_tok(
                reqs[j].toks@,
                2,
            ) == table && spec_tok(reqs[j].toks@, pos) == v {
            let j = choose|j: int|
                0 <= j < reqs.len() && (#[trigger] reqs[j]).toks@.len() > 2 && spec_tok(
                    reqs[j].toks@,
                    2,
                ) == table && spec_tok(reqs[j].toks@, pos) == v;
            assert(contains_seq(cur, v)) by {
                if j < reqs.len() - 1 {
                    assert(reqs.drop_last()[j] == reqs[j]);
                    assert(contains_seq(prev, v));
                    let i = choose|i: int| 0 <= i < prev.len() && prev[i] == v;
                    if hit {
                        assert(cur[i] == v);
                    } else {
                        assert(cur[i] == v);
                    }
                } else {
                    // the last request carries v
                    if contains_seq(prev, v) {
                        let i = choose|i: int| 0 <= i < prev.len() && prev[i] == v;
                        assert(cur[i] == v);
                    } else {
                        assert(hit);
                        assert(cur[prev.len() as int] == v);
                    }
                }
            }
        }
    }
}

proof fn lemma_contains_seq_push(s: Seq<Seq<char>>, x: Seq<char>, v: Seq<char>)
    ensures
        contains_seq(s.push(x), v) <==> (contains_seq(s, v) || v == x),
{
    if contains_seq(s.push(x), v) {
        let i = choose|i: int| 0 <= i < s.push(x).len() && s.push(x)[i] == v;
        if i < s.len() {
            assert(s[i] == v);
        }
    }
    if contains_seq(s, v) {
        let i = choose|i: int| 0 <= i < s.len() && s[i] == v;
        assert(s.push(x)[i] == v);
    }
    if v == x {
        assert(s.push(x)[s.len() as int] == v);
    }
}

/// No value appears twice among the distinct values.
pub proof fn lemma_distinct_vals_nodup(reqs: Seq<Rec>, table: Seq<char>, pos: int)
    ensures
        forall|a: int, b: int|
            0 <= a < b < spec_distinct_vals(reqs, table, pos).len() ==> spec_distinct_vals(
                reqs,
                table,
                pos,
            )[a] != spec_distinct_vals(reqs, table, pos)[b],
    decreases reqs.len(),
{
    if reqs.len() > 0 {
        lemma_distinct_vals_nodup(reqs.drop_last(), table, pos);
        let prev = spec_distinct_vals(reqs.drop_last(), table, pos);
        let cur = spec_distinct_vals(reqs, table, pos);
        let rec = reqs.last();
        let val = spec_tok(rec.toks@, pos);
        assert forall|a: int, b: int| 0 <= a < b < cur.len() implies cur[a] != cur[b] by {
            if b < prev.len() {
                assert(cur[a] == prev[a] && cur[b] == prev[b]);
            } else if b == prev.len() && cur.len() == prev.len() + 1 {
                assert(cur[b] == val);
                assert(cur[a] == prev[a]);
                if prev[a] == val {
                    assert(contains_seq(prev, val));
                }
            }
        }
    }
}


/// Chain interleaving, one request: when every transition of an order
/// references the same present request, the chain is that request
/// followed by all the transitions, in arrival order.
pub proof fn lemma_chain_single_request(s: OrderRec, key: Seq<char>, rk: Seq<char>)
    requires
        s.ords.spec_get(key) matches Some(c) && c@.len() > 0 && forall|j: int|
            0 <= j < c@.len() ==> spec_tok((#[trigger] c@[j]).toks@, 4) == rk,
        rk != ""@,
        s.reqs.spec_get(rk) is Some,
    ensures
        s.spec_chain(key) == seq![s.reqs.spec_get(rk)->0] + (s.ords.spec_get(key)->0)@,
{
    let list = (s.ords.spec_get(key)->0)@;
    lemma_chain_same_key(s, list, rk, 1);
    assert(list.skip(1) =~= list.drop_first());
    assert(s.spec_chain_from(list, 0, ""@) == seq![s.reqs.spec_get(rk)->0, list[0]]
        + s.spec_chain_from(list, 1, rk));
    assert(seq![s.reqs.spec_get(rk)->0, list[0]] + list.skip(1) =~= seq![
        s.reqs.spec_get(rk)->0,
    ] + list);
}

/// From a position on, transitions that keep referencing the last seen
/// request key contribute themselves alone.
proof fn lemma_chain_same_key(s: OrderRec, list: Seq<Rec>, rk: Seq<char>, i: int)
    requires
        0 <= i <= list.len(),
        forall|j: int| 0 <= j < list.len() ==> spec_tok((#[trigger] list[j]).toks@, 4) == rk,
    ensures
        s.spec_chain_from(list, i, rk) == list.skip(i),
    decreases list.len() - i,
{
    if i < list.len() {
        lemma_chain_same_key(s, list, rk, i + 1);
        assert(seq![list[i]] + list.skip(i + 1) =~= list.skip(i));
    } else {
        assert(list.skip(i) =~= Seq::<Rec>::empty());
    }
}

/// Audit-line filtering: a request whose kind is not an order action
/// (new, change, or cancel) never produces an audit line; the kind
/// marked as a fill report is among those that never do.
pub proof fn lemma_audit_unknown_kind(
    s: OrderRec,
    key: Seq<char>,
    req: Rec,
    dt: (Seq<char>, Seq<char>),
)
    requires
        s.spec_resolve(req, "ReqKind"@) == "5"@,
    ensures
        crate::audit::spec_audit_entry(s, key, req, dt) == Seq::<char>::empty(),
{
    reveal_strlit("5");
    reveal_strlit("1");
    reveal_strlit("2");
    reveal_strlit("3");
    reveal_strlit("4");
    assert("5"@ != "1"@ && "5"@ != "2"@ && "5"@ != "3"@ && "5"@ != "4"@) by {
        assert("5"@[0] != "1"@[0]);
        assert("5"@[0] != "2"@[0]);
        assert("5"@[0] != "3"@[0]);
        assert("5"@[0] != "4"@[0]);
    }
    assert(crate::audit::spec_kind_char(s.spec_resolve(req, "ReqKind"@)) is None);
}

} // verus!
