use vstd::prelude::*;
use vstd::string::*;
use crate::record::Rec;
use crate::store::OrderRec;
use crate::query::Parser;
use crate::strutil::{str_eq, parse_i64, spec_parse_int, spec_split, split_char, spec_u64_digits,
    spec_i64_str, u64_to_string, i64_to_string};
use crate::timefmt::{spec_off_ok, spec_stamp_out, spec_secs_stamp, local_stamp14};

verus! {

/// How many stored requests carry a fill or fill-report kind.
pub open spec fn spec_deal_count(reqs: Seq<Rec>) -> int
    decreases reqs.len(),
{
    if reqs.len() == 0 {
        0int
    } else {
        spec_deal_count(reqs.drop_last()) + (
        if reqs.last().spec_field(4) == "10"@ || reqs.last().spec_field(4) == "11"@ {
            1int
        } else {
            0int
        })
    }
}

/// How many order chains end in a failed transition.
pub open spec fn spec_fail_count(ords: Seq<Vec<Rec>>) -> int
    decreases ords.len(),
{
    if ords.len() == 0 {
        0int
    } else {
        let ch = ords.last()@;
        spec_fail_count(ords.drop_last()) + (
        if ch.len() > 0 && ch.last().toks@.len() > 7 && ch.last().spec_field(7) == "99"@ {
            1int
        } else {
            0int
        })
    }
}

/// The statistics banner of a store.
pub open spec fn spec_info_text(s: OrderRec) -> Seq<char> {
    "tables:\t"@ + spec_u64_digits(s.tables.keys@.len() as int) + "\nreqs:\t"@ + spec_u64_digits(
        s.reqs.keys@.len() as int,
    ) + "\nords:\t"@ + spec_u64_digits(s.ords.keys@.len() as int) + "\ndeals:\t"@
        + spec_u64_digits(spec_deal_count(s.reqs.vals@)) + "\ninvalid:\t"@ + spec_u64_digits(
        spec_fail_count(s.ords.vals@),
    ) + "\n"@
}

/// How many unlinked requests the store holds.
pub open spec fn spec_unlink_count(reqs: Seq<Rec>) -> int
    decreases reqs.len(),
{
    if reqs.len() == 0 {
        0int
    } else {
        spec_unlink_count(reqs.drop_last()) + (
        if !reqs.last().linked {
            1int
        } else {
            0int
        })
    }
}

/// One unlinked request's report line.
pub open spec fn spec_unlink_entry(s: OrderRec, key: Seq<char>, r: Rec, off: Option<int>) -> Seq<
    char,
> {
    let user = s.spec_resolve(r, "User"@);
    spec_stamp_out(r, off) + " reqkey:"@ + key + (
    if user.len() > 0 {
        ", user: "@ + user
    } else {
        Seq::<char>::empty()
    }) + "\n"@
}

/// The report lines of the unlinked requests among the first
/// `offs.len()` stored ones.
pub open spec fn spec_unlink_entries(s: OrderRec, offs: Seq<Option<int>>) -> Seq<char>
    decreases offs.len(),
{
    if offs.len() == 0 {
        Seq::empty()
    } else {
        let i = offs.len() - 1;
        spec_unlink_entries(s, offs.drop_last()) + (
        if !s.reqs.vals@[i].linked {
            spec_unlink_entry(s, s.reqs.keys@[i]@, s.reqs.vals@[i], offs.last())
        } else {
            Seq::<char>::empty()
        })
    }
}

/// The whole unlinked-requests report: a count line when there is
/// anything to report, then one line per unlinked request.
pub open spec fn spec_unlink_text(s: OrderRec, offs: Seq<Option<int>>) -> Seq<char> {
    let n = spec_unlink_count(s.reqs.vals@);
    (if n > 0 {
        "count:"@ + spec_u64_digits(n) + "\n"@
    } else {
        Seq::<char>::empty()
    }) + spec_unlink_entries(s, offs)
}

/// The whole second a record's embedded timestamp starts with, when its
/// text parses.
pub open spec fn spec_flow_key(rec: Rec) -> Option<int> {
    if rec.toks@.len() > 3 {
        match spec_parse_int(spec_split(rec.spec_field(3), '.')[0]) {
            Some(v) => if i64::MIN <= v <= i64::MAX {
                Some(v)
            } else {
                None
            },
            None => None,
        }
    } else {
        None
    }
}

/// How many of the stored requests fall into second `t`.
pub open spec fn spec_flow_count(reqs: Seq<Rec>, t: int) -> int
    decreases reqs.len(),
{
    if reqs.len() == 0 {
        0int
    } else {
        spec_flow_count(reqs.drop_last(), t) + (
        if spec_flow_key(reqs.last()) == Some(t) {
            1int
        } else {
            0int
        })
    }
}

/// One line of the per-second flow report, or nothing when the second
/// renders to no local stamp.
pub open spec fn spec_flow_line(t: int, cnt: int, off: Option<int>) -> Seq<char> {
    let stamp = spec_secs_stamp(t, off);
    if stamp.len() > 0 {
        spec_i64_str(t) + ", "@ + stamp + ","@ + spec_u64_digits(cnt) + "\n"@
    } else {
        Seq::<char>::empty()
    }
}

/// The first `offs.len()` count entries rendered as report lines.
pub open spec fn spec_flow_text(entries: Seq<(i64, u64)>, offs: Seq<Option<int>>) -> Seq<char>
    decreases offs.len(),
{
    if offs.len() == 0 {
        Seq::empty()
    } else {
        let i = offs.len() - 1;
        spec_flow_text(entries, offs.drop_last()) + spec_flow_line(
            entries[i].0 as int,
            entries[i].1 as int,
            offs.last(),
        )
    }
}

/// The per-second request counts, one entry per occupied second, in
/// strictly ascending order of second.
pub open spec fn spec_flow_entries_ok(reqs: Seq<Rec>, es: Seq<(i64, u64)>) -> bool {
    &&& forall|a: int, b: int| 0 <= a < b < es.len() ==> (#[trigger] es[a]).0 < (#[trigger] es[b]).0
    &&& forall|a: int|
        0 <= a < es.len() ==> (#[trigger] es[a]).1 == spec_flow_count(reqs, es[a].0 as int)
            && es[a].1 > 0
    &&& forall|t: i64|
        #[trigger] spec_flow_count(reqs, t as int) > 0 ==> exists|a: int|
            0 <= a < es.len() && (#[trigger] es[a]).0 == t
}

impl Parser {
    /// The statistics banner: how many schemas, requests and order
    /// chains the store holds, how many requests are fills, and how many
    /// chains ended in failure. Computed once and cached.
    pub fn get_info(&mut self) -> (r: String)
        requires
            old(self).wf(),
        ensures
            final(self).wf(),
            final(self).ord_rec == old(self).ord_rec,
            r@ == if old(self).info@.len() == 0 {
                spec_info_text(old(self).ord_rec)
            } else {
                old(self).info@
            },
            final(self).info@ == r@,
    {
        if self.info.as_str().is_empty() {
            let t = info_text(&self.ord_rec);
            self.info = t.clone();
            t
        } else {
            self.info.clone()
        }
    }

    /// One line per request that no order transition ever referenced,
    /// under a count header; empty when every request is linked.
    pub fn list_unlink_req(&self) -> (r: String)
        requires
            self.wf(),
        ensures
            exists|offs: Seq<Option<int>>|
                #![trigger spec_unlink_entries(self.ord_rec, offs)]
                offs.len() == self.ord_rec.reqs.vals@.len() && (forall|j: int|
                    0 <= j < offs.len() ==> spec_off_ok(#[trigger] offs[j])) && r@
                    == spec_unlink_text(self.ord_rec, offs),
    {
        self.ord_rec.unlink_text()
    }

    /// The per-second request flow: every occupied second in ascending
    /// order, with its local stamp and its request count.
    pub fn req_flow_statistic(&self) -> (r: String)
        requires
            self.wf(),
        ensures
            exists|es: Seq<(i64, u64)>, offs: Seq<Option<int>>|
                #![trigger spec_flow_text(es, offs)]
                spec_flow_entries_ok(self.ord_rec.reqs.vals@, es) && offs.len() == es.len() && (
                forall|j: int| 0 <= j < offs.len() ==> spec_off_ok(#[trigger] offs[j])) && r@
                    == spec_flow_text(es, offs),
    {
        self.ord_rec.flow_text()
    }

    /// Field statistics over the store.
    pub fn statistic_field(&self, table_name: &str, field_name: &str) -> (r: String)
        requires
            self.wf(),
        ensures
            r@ == match self.ord_rec.tables.spec_get(table_name@) {
                Some(t) => match t.index.spec_get(field_name@) {
                    Some(p) => {
                        let items = crate::store::spec_distinct_vals(
                            self.ord_rec.reqs.vals@,
                            table_name@,
                            p as int,
                        );
                        "there are totally "@ + spec_u64_digits(items.len() as int) + " "@
                            + field_name@ + " of "@ + table_name@ + ":\n"@
                            + crate::strutil::spec_joined(items)
                    },
                    None => "there is no "@ + field_name@ + " field"@,
                },
                None => "there is no "@ + table_name@ + " table"@,
            },
    {
        self.ord_rec.statistic_field(table_name, field_name)
    }

    /// One predicate searched directly: table, field and value.
    pub fn find_by_field<'a>(
        &'a self,
        table_name: &str,
        field_name: &str,
        search_target: &str,
    ) -> (r: Option<Vec<Vec<&'a Rec>>>)
        requires
            self.wf(),
        ensures
            match self.ord_rec.spec_check_req_data(table_name@, field_name@, search_target@) {
                Some(ll) => r matches Some(v) && crate::store::chain_views(v@) == ll,
                None => r is None,
            },
    {
        self.ord_rec.check_req_data(table_name, field_name, search_target)
    }
}

/// Builds the statistics banner of a store.
#[verifier::loop_isolation(false)]
fn info_text(s: &OrderRec) -> (r: String)
    requires
        s.wf(),
    ensures
        r@ == spec_info_text(*s),
{
    let ghost reqs = s.reqs.vals@;
    let mut deals: u64 = 0;
    let n = s.reqs.vals.len();
    let mut i: usize = 0;
    proof {
        assert(reqs.take(0) =~= Seq::<Rec>::empty());
    }
    while i < n
        invariant
            0 <= i <= n,
            n == reqs.len(),
            deals == spec_deal_count(reqs.take(i as int)),
            deals <= i,
        decreases n - i,
    {
        proof {
            assert(reqs.take(i + 1).drop_last() =~= reqs.take(i as int));
            assert(reqs.take(i + 1).last() == reqs[i as int]);
        }
        let rec = &s.reqs.vals[i];
        if str_eq(rec.get_field(4), "10") || str_eq(rec.get_field(4), "11") {
            deals = deals + 1;
        }
        i = i + 1;
    }
    proof {
        assert(reqs.take(n as int) =~= reqs);
    }
    let ghost ords = s.ords.vals@;
    let mut fails: u64 = 0;
    let no = s.ords.vals.len();
    let mut j: usize = 0;
    proof {
        assert(ords.take(0) =~= Seq::<Vec<Rec>>::empty());
    }
    while j < no
        invariant
            0 <= j <= no,
            no == ords.len(),
            fails == spec_fail_count(ords.take(j as int)),
            fails <= j,
        decreases no - j,
    {
        proof {
            assert(ords.take(j + 1).drop_last() =~= ords.take(j as int));
            assert(ords.take(j + 1).last() == ords[j as int]);
        }
        let list = &s.ords.vals[j];
        if list.len() > 0 {
            let rec = &list[list.len() - 1];
            proof {
                assert(list@.last() == list@[list@.len() - 1]);
            }
            if rec.toks.len() > 7 && str_eq(rec.get_field(7), "99") {
                fails = fails + 1;
            }
        }
        j = j + 1;
    }
    proof {
        assert(ords.take(no as int) =~= ords);
    }
    let mut out = "tables:\t".to_owned();
    let c1 = u64_to_string(s.tables.len() as u64);
    out.append(c1.as_str());
    out.append("\nreqs:\t");
    let c2 = u64_to_string(s.reqs.len() as u64);
    out.append(c2.as_str());
    out.append("\nords:\t");
    let c3 = u64_to_string(s.ords.len() as u64);
    out.append(c3.as_str());
    out.append("\ndeals:\t");
    let c4 = u64_to_string(deals);
    out.append(c4.as_str());
    out.append("\ninvalid:\t");
    let c5 = u64_to_string(fails);
    out.append(c5.as_str());
    out.append("\n");
    proof {
        assert(out@ =~= spec_info_text(*s));
    }
    out
}

impl OrderRec {
    /// Builds the unlinked-requests report.
    #[verifier::loop_isolation(false)]
    #[verifier::rlimit(60)]
    fn unlink_text(&self) -> (r: String)
        requires
            self.wf(),
        ensures
            exists|offs: Seq<Option<int>>|
                #![trigger spec_unlink_entries(*self, offs)]
                offs.len() == self.reqs.vals@.len() && (forall|j: int|
                    0 <= j < offs.len() ==> spec_off_ok(#[trigger] offs[j])) && r@
                    == spec_unlink_text(*self, offs),
    {
        let ghost reqs = self.reqs.vals@;
        let mut cnt: u64 = 0;
        let n = self.reqs.vals.len();
        let mut i: usize = 0;
        proof {
            assert(reqs.take(0) =~= Seq::<Rec>::empty());
        }
        while i < n
            invariant
                0 <= i <= n,
                n == reqs.len(),
                cnt == spec_unlink_count(reqs.take(i as int)),
                cnt <= i,
            decreases n - i,
        {
            proof {
                assert(reqs.take(i + 1).drop_last() =~= reqs.take(i as int));
                assert(reqs.take(i + 1).last() == reqs[i as int]);
            }
            if !self.reqs.vals[i].linked {
                cnt = cnt + 1;
            }
            i = i + 1;
        }
        proof {
            assert(reqs.take(n as int) =~= reqs);
        }
        let mut out = String::new();
        if cnt > 0 {
            out.append("count:");
            let c = u64_to_string(cnt);
            out.append(c.as_str());
            out.append("\n");
        }
        let ghost head = out@;
        let ghost mut goffs: Seq<Option<int>> = Seq::empty();
        let mut k: usize = 0;
        proof {
            assert(out@ =~= head + spec_unlink_entries(*self, goffs));
        }
        while k < n
            invariant
                0 <= k <= n,
                n == reqs.len(),
                goffs.len() == k,
                forall|j: int| 0 <= j < goffs.len() ==> spec_off_ok(#[trigger] goffs[j]),
                out@ == head + spec_unlink_entries(*self, goffs),
            decreases n - k,
        {
            let rec = &self.reqs.vals[k];
            let ghost mut used: Option<int> = None;
            if !rec.linked {
                let ts = rec.get_timestamp();
                proof {
                    used = choose|off: Option<int>|
                        spec_off_ok(off) && ts@ == spec_stamp_out(reqs[k as int], off);
                }
                out.append(ts.as_str());
                out.append(" reqkey:");
                out.append(self.reqs.keys[k].as_str());
                let user = self.get_value(rec, "User");
                if !user.as_str().is_empty() {
                    out.append(", user: ");
                    out.append(user.as_str());
                }
                out.append("\n");
            }
            proof {
                let prev = goffs;
                goffs = goffs.push(used);
                assert(goffs.drop_last() =~= prev);
                assert(out@ =~= head + spec_unlink_entries(*self, goffs));
            }
            k = k + 1;
        }
        out
    }

    /// Builds the per-second flow counts, sorted ascending.
    #[verifier::loop_isolation(false)]
    fn flow_counts(&self) -> (r: Vec<(i64, u64)>)
        requires
            self.wf(),
        ensures
            spec_flow_entries_ok(self.reqs.vals@, r@),
    {
        let ghost reqs = self.reqs.vals@;
        let mut out: Vec<(i64, u64)> = Vec::new();
        let n = self.reqs.vals.len();
        let mut i: usize = 0;
        proof {
            assert(reqs.take(0) =~= Seq::<Rec>::empty());
        }
        while i < n
            invariant
                0 <= i <= n,
                n == reqs.len(),
                forall|a: int, b: int|
                    0 <= a < b < out@.len() ==> (#[trigger] out@[a]).0 < (#[trigger] out@[b]).0,
                forall|a: int|
                    0 <= a < out@.len() ==> (#[trigger] out@[a]).1 == spec_flow_count(
                        reqs.take(i as int),
                        out@[a].0 as int,
                    ) && 0 < out@[a].1 <= i,
                forall|t: i64|
                    #[trigger] spec_flow_count(reqs.take(i as int), t as int) > 0 ==> exists|
                        a: int,
                    | 0 <= a < out@.len() && (#[trigger] out@[a]).0 == t,
            decreases n - i,
        {
            proof {
                assert(reqs.take(i + 1).drop_last() =~= reqs.take(i as int));
                assert(reqs.take(i + 1).last() == reqs[i as int]);
            }
            let rec = &self.reqs.vals[i];
            let keyv: Option<i64> = if rec.toks.len() > 3 {
                let parts = split_char(rec.toks[3].as_str(), '.');
                proof {
                    crate::strutil::lemma_split_len(rec.spec_field(3), '.');
                    assert(parts@[0]@ == parts.deep_view()[0]);
                }
                parse_i64(parts[0].as_str())
            } else {
                None
            };
            proof {
                match spec_flow_key(reqs[i as int]) {
                    Some(t) => {
                        assert(keyv == Some(t as i64));
                    },
                    None => {
                        assert(keyv is None);
                    },
                }
            }
            match keyv {
                Some(t) => {
                    let ghost pre = out@;
                    let m = out.len();
                    let mut j: usize = 0;
                    while j < m && out[j].0 < t
                        invariant
                            0 <= j <= m,
                            m == out@.len(),
                            forall|jj: int| 0 <= jj < j ==> (#[trigger] out@[jj]).0 < t,
                        decreases m - j,
                    {
                        j = j + 1;
                    }
                    if j < m && out[j].0 == t {
                        let c = out[j].1;
                        out[j] = (t, c + 1);
                        proof {
                            assert(out@ =~= pre.update(j as int, (t, (c + 1) as u64)));
                        }
                    } else {
                        proof {
                            if j < m {
                                assert(pre[j as int].0 > t);
                            }
                        }
                        out.insert(j, (t, 1));
                    }
                    proof {
                        lemma_flow_step(reqs, i as int, pre, out@, j as int, t);
                    }
                },
                None => {
                    proof {
                        assert forall|a: int|
                            0 <= a < out@.len() implies (#[trigger] out@[a]).1 == spec_flow_count(
                            reqs.take(i + 1),
                            out@[a].0 as int,
                        ) && 0 < out@[a].1 <= i + 1 by {
                            assert(spec_flow_count(reqs.take(i + 1), out@[a].0 as int)
                                == spec_flow_count(reqs.take(i as int), out@[a].0 as int));
                        }
                        assert forall|t: i64|
                            #[trigger] spec_flow_count(reqs.take(i + 1), t as int) > 0 implies
                            exists|a: int| 0 <= a < out@.len() && (#[trigger] out@[a]).0 == t by {
                            assert(spec_flow_count(reqs.take(i + 1), t as int) == spec_flow_count(
                                reqs.take(i as int),
                                t as int,
                            ));
                        }
                    }
                },
            }
            i = i + 1;
        }
        proof {
            assert(reqs.take(n as int) =~= reqs);
        }
        out
    }

    /// Builds the per-second flow report.
    #[verifier::loop_isolation(false)]
    fn flow_text(&self) -> (r: String)
        requires
            self.wf(),
        ensures
            exists|es: Seq<(i64, u64)>, offs: Seq<Option<int>>|
                #![trigger spec_flow_text(es, offs)]
                spec_flow_entries_ok(self.reqs.vals@, es) && offs.len() == es.len() && (forall|
                    j: int,
                |
                    0 <= j < offs.len() ==> spec_off_ok(#[trigger] offs[j])) && r@
                    == spec_flow_text(es, offs),
    {
        let es = self.flow_counts();
        let ghost ges = es@;
        let mut out = String::new();
        let ghost mut goffs: Seq<Option<int>> = Seq::empty();
        let n = es.len();
        let mut i: usize = 0;
        proof {
            assert(out@ =~= spec_flow_text(ges, goffs));
        }
        while i < n
            invariant
                0 <= i <= n,
                n == ges.len(),
                es@ == ges,
                goffs.len() == i,
                forall|j: int| 0 <= j < goffs.len() ==> spec_off_ok(#[trigger] goffs[j]),
                out@ == spec_flow_text(ges, goffs),
            decreases n - i,
        {
            let t = es[i].0;
            let c = es[i].1;
            let sp = local_stamp14(t);
            let stamp = sp.0;
            let ghost off = sp.1@;
            if !stamp.as_str().is_empty() {
                let ts = i64_to_string(t);
                out.append(ts.as_str());
                out.append(", ");
                out.append(stamp.as_str());
                out.append(",");
                let cs = u64_to_string(c);
                out.append(cs.as_str());
                out.append("\n");
            }
            proof {
                let prev = goffs;
                goffs = goffs.push(off);
                assert(goffs.drop_last() =~= prev);
                assert(out@ =~= spec_flow_text(ges, goffs));
            }
            i = i + 1;
        }
        out
    }
}

proof fn lemma_flow_count_nonneg(reqs: Seq<Rec>, t: int)
    ensures
        spec_flow_count(reqs, t) >= 0,
    decreases reqs.len(),
{
    if reqs.len() > 0 {
        lemma_flow_count_nonneg(reqs.drop_last(), t);
    }
}

/// One request folded into the flow counts: incrementing or inserting
/// its second keeps the counts exact, sorted, and complete.
proof fn lemma_flow_step(
    reqs: Seq<Rec>,
    i: int,
    pre: Seq<(i64, u64)>,
    post: Seq<(i64, u64)>,
    j: int,
    t: i64,
)
    requires
        0 <= i < reqs.len(),
        i < u64::MAX,
        spec_flow_key(reqs[i]) == Some(t as int),
        forall|a: int, b: int|
            0 <= a < b < pre.len() ==> (#[trigger] pre[a]).0 < (#[trigger] pre[b]).0,
        forall|a: int|
            0 <= a < pre.len() ==> (#[trigger] pre[a]).1 == spec_flow_count(
                reqs.take(i),
                pre[a].0 as int,
            ) && 0 < pre[a].1 <= i,
        forall|t2: i64|
            #[trigger] spec_flow_count(reqs.take(i), t2 as int) > 0 ==> exists|a: int|
                0 <= a < pre.len() && (#[trigger] pre[a]).0 == t2,
        0 <= j <= pre.len(),
        forall|jj: int| 0 <= jj < j ==> (#[trigger] pre[jj]).0 < t,
        reqs.take(i + 1).drop_last() == reqs.take(i),
        reqs.take(i + 1).last() == reqs[i],
        if j < pre.len() && pre[j].0 == t {
            post == pre.update(j, (t, (pre[j].1 + 1) as u64))
        } else {
            (j < pre.len() ==> pre[j].0 > t) && post == pre.insert(j, (t, 1u64))
        },
    ensures
        forall|a: int, b: int|
            0 <= a < b < post.len() ==> (#[trigger] post[a]).0 < (#[trigger] post[b]).0,
        forall|a: int|
            0 <= a < post.len() ==> (#[trigger] post[a]).1 == spec_flow_count(
                reqs.take(i + 1),
                post[a].0 as int,
            ) && 0 < post[a].1 <= i + 1,
        forall|t2: i64|
            #[trigger] spec_flow_count(reqs.take(i + 1), t2 as int) > 0 ==> exists|a: int|
                0 <= a < post.len() && (#[trigger] post[a]).0 == t2,
{
    assert forall|t2: i64|
        #[trigger] spec_flow_count(reqs.take(i + 1), t2 as int) == spec_flow_count(
        reqs.take(i),
        t2 as int,
    )
            + (if t2 == t {
            1int
        } else {
            0int
        }) by {
        assert(spec_flow_count(reqs.take(i + 1), t2 as int) == spec_flow_count(
            reqs.take(i),
            t2 as int,
        ) + (if spec_flow_key(reqs[i]) == Some(t2 as int) {
            1int
        } else {
            0int
        }));
    }
    if j < pre.len() && pre[j].0 == t {
        // increment in place
        assert forall|a: int|
            0 <= a < post.len() implies (#[trigger] post[a]).1 == spec_flow_count(
            reqs.take(i + 1),
            post[a].0 as int,
        ) && 0 < post[a].1 <= i + 1 by {
            if a == j {
                assert(post[a] == (t, (pre[j].1 + 1) as u64));
            } else {
                assert(post[a] == pre[a]);
                assert(pre[a].0 != t) by {
                    if a < j {
                        assert(pre[a].0 < pre[j].0);
                    } else {
                        assert(pre[j].0 < pre[a].0);
                    }
                }
            }
        }
        assert forall|t2: i64|
            #[trigger] spec_flow_count(reqs.take(i + 1), t2 as int) > 0 implies exists|a: int|
            0 <= a < post.len() && (#[trigger] post[a]).0 == t2 by {
            if t2 == t {
                assert(post[j].0 == t2);
            } else {
                assert(spec_flow_count(reqs.take(i), t2 as int) > 0);
                let a = choose|a: int| 0 <= a < pre.len() && (#[trigger] pre[a]).0 == t2;
                assert(post[a].0 == t2);
            }
        }
    } else {
        // fresh second inserted at its sorted position
        assert(spec_flow_count(reqs.take(i), t as int) == 0) by {
            lemma_flow_count_nonneg(reqs.take(i), t as int);
            if spec_flow_count(reqs.take(i), t as int) > 0 {
                let a = choose|a: int| 0 <= a < pre.len() && (#[trigger] pre[a]).0 == t;
                assert(0 <= a < pre.len() && pre[a].0 == t);
                if a < j {
                    assert(pre[a].0 < t);
                    assert(false);
                } else {
                    assert(j < pre.len());
                    assert(pre[j].0 > t);
                    if a > j {
                        assert(pre[j].0 < pre[a].0);
                    }
                    assert(false);
                }
            }
        }
        assert forall|a: int, b: int|
            0 <= a < b < post.len() implies (#[trigger] post[a]).0 < (#[trigger] post[b]).0 by {
            if b < j {
                assert(post[a] == pre[a] && post[b] == pre[b]);
            } else if a > j {
                assert(post[a] == pre[a - 1] && post[b] == pre[b - 1]);
            } else if a == j && b > j {
                assert(post[b] == pre[b - 1]);
                if b - 1 > j {
                    assert(pre[j].0 < pre[b - 1].0);
                }
            } else if b == j {
                assert(post[a] == pre[a]);
            } else {
                // a < j < b
                assert(post[a] == pre[a] && post[b] == pre[b - 1]);
                if b - 1 > j {
                    assert(pre[j].0 < pre[b - 1].0);
                } else {
                    assert(b - 1 == j);
                }
            }
        }
        assert forall|a: int|
            0 <= a < post.len() implies (#[trigger] post[a]).1 == spec_flow_count(
            reqs.take(i + 1),
            post[a].0 as int,
        ) && 0 < post[a].1 <= i + 1 by {
            if a == j {
                assert(post[a] == (t, 1u64));
            } else if a < j {
                assert(post[a] == pre[a]);
                assert(pre[a].0 < t);
            } else {
                assert(post[a] == pre[a - 1]);
                assert(pre[a - 1].0 != t) by {
                    if a - 1 >= j && j < pre.len() {
                        if a - 1 > j {
                            assert(pre[j].0 < pre[a - 1].0);
                        }
                    }
                    if a - 1 < j {
                        assert(pre[a - 1].0 < t);
                    }
                }
            }
        }
        assert forall|t2: i64|
            #[trigger] spec_flow_count(reqs.take(i + 1), t2 as int) > 0 implies exists|a: int|
            0 <= a < post.len() && (#[trigger] post[a]).0 == t2 by {
            if t2 == t {
                assert(post[j].0 == t2);
            } else {
                assert(spec_flow_count(reqs.take(i), t2 as int) > 0);
                let a = choose|a: int| 0 <= a < pre.len() && (#[trigger] pre[a]).0 == t2;
                if a < j {
                    assert(post[a].0 == t2);
                } else {
                    assert(post[a + 1].0 == t2);
                }
            }
        }
    }
}

} // verus!
