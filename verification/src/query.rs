use vstd::prelude::*;
use vstd::string::*;
use crate::record::Rec;
use crate::store::{OrderRec, derefs, chain_views};
use crate::strutil::{split_char, spec_split, trim_str, spec_trim, str_eq, contains_view,
    contains_str};

verus! {

/// The texts a sequence of strings reads as.
pub open spec fn seq_views(s: Seq<String>) -> Seq<Seq<char>> {
    s.map_values(|x: String| x@)
}

/// The key a chain is de-duplicated by inside one AND-group's union: the
/// key of its first order transition, or failing that of its first
/// record; an empty chain has none and is dropped.
pub open spec fn spec_dedup_key(chain: Seq<Rec>) -> Option<Seq<char>> {
    if exists|i: int| 0 <= i < chain.len() && (#[trigger] chain[i]).spec_is_ord() {
        let i = choose|i: int|
            0 <= i < chain.len() && (#[trigger] chain[i]).spec_is_ord() && forall|j: int|
                0 <= j < i ==> !(#[trigger] chain[j]).spec_is_ord();
        Some(chain[i].spec_field(1))
    } else if chain.len() > 0 {
        Some(chain[0].spec_field(1))
    } else {
        None
    }
}

/// Whether some chain already collected carries this de-duplication key.
pub open spec fn spec_key_seen(acc: Seq<Seq<Rec>>, k: Seq<char>) -> bool {
    exists|i: int| 0 <= i < acc.len() && spec_dedup_key(#[trigger] acc[i]) == Some(k)
}

/// One OR-term's results merged into the union collected so far: each
/// chain joins unless its key was already taken; first occurrence wins.
pub open spec fn spec_dedup_append(acc: Seq<Seq<Rec>>, items: Seq<Seq<Rec>>, j: int) -> Seq<
    Seq<Rec>,
>
    decreases items.len() - j,
{
    if j < 0 || j >= items.len() {
        acc
    } else {
        let step = match spec_dedup_key(items[j]) {
            Some(k) => if spec_key_seen(acc, k) {
                acc
            } else {
                acc.push(items[j])
            },
            None => acc,
        };
        spec_dedup_append(step, items, j + 1)
    }
}

/// One AND-group evaluated: every `table:field:value` OR-term with
/// exactly three parts is run, and the hits are unioned with
/// de-duplication. The boolean says whether any term could be evaluated
/// at all.
pub open spec fn spec_group_eval(
    s: OrderRec,
    terms: Seq<Seq<char>>,
    j: int,
    has: bool,
    acc: Seq<Seq<Rec>>,
) -> (bool, Seq<Seq<Rec>>)
    decreases terms.len() - j,
{
    if j < 0 || j >= terms.len() {
        (has, acc)
    } else {
        let parts = spec_split(spec_trim(terms[j]), ':');
        if parts.len() == 3 {
            match s.spec_check_req_data(parts[0], parts[1], parts[2]) {
                Some(found) => spec_group_eval(
                    s,
                    terms,
                    j + 1,
                    true,
                    spec_dedup_append(acc, found, 0),
                ),
                None => spec_group_eval(s, terms, j + 1, has, acc),
            }
        } else {
            spec_group_eval(s, terms, j + 1, has, acc)
        }
    }
}

/// Whether some chain of `u` leads with this record key.
pub open spec fn spec_lead_key_in(u: Seq<Seq<Rec>>, k: Seq<char>) -> bool {
    exists|j: int| 0 <= j < u.len() && (#[trigger] u[j]).len() > 0 && u[j][0].spec_field(1) == k
}

/// The chains of `prev` whose leading record key also leads some chain
/// of `u`: the AND of two groups.
pub open spec fn spec_filter_keys(prev: Seq<Seq<Rec>>, u: Seq<Seq<Rec>>) -> Seq<Seq<Rec>>
    decreases prev.len(),
{
    if prev.len() == 0 {
        Seq::empty()
    } else {
        let r = spec_filter_keys(prev.drop_last(), u);
        let c = prev.last();
        if c.len() > 0 && spec_lead_key_in(u, c[0].spec_field(1)) {
            r.push(c)
        } else {
            r
        }
    }
}

/// The running state of the AND-fold over the comma-separated groups.
pub enum EvalAcc {
    /// No group could be evaluated yet.
    Unseeded,
    /// The chains that survived every evaluated group so far.
    Chains(Seq<Seq<Rec>>),
    /// Some evaluated group's union, or some intersection, came up
    /// empty: the whole evaluation is no match.
    Dead,
}

pub open spec fn spec_eval_groups(
    s: OrderRec,
    groups: Seq<Seq<char>>,
    i: int,
    acc: EvalAcc,
) -> EvalAcc
    decreases groups.len() - i,
{
    if i < 0 || i >= groups.len() {
        acc
    } else if acc is Dead {
        EvalAcc::Dead
    } else {
        let he = spec_group_eval(s, spec_split(groups[i], '|'), 0, false, Seq::empty());
        if !he.0 {
            spec_eval_groups(s, groups, i + 1, acc)
        } else if he.1.len() == 0 {
            EvalAcc::Dead
        } else {
            match acc {
                EvalAcc::Unseeded => spec_eval_groups(s, groups, i + 1, EvalAcc::Chains(he.1)),
                EvalAcc::Chains(prev) => {
                    let f = spec_filter_keys(prev, he.1);
                    if f.len() == 0 {
                        EvalAcc::Dead
                    } else {
                        spec_eval_groups(s, groups, i + 1, EvalAcc::Chains(f))
                    }
                },
                EvalAcc::Dead => EvalAcc::Dead,
            }
        }
    }
}

/// What a compound condition denotes over a store: AND-groups separated
/// by commas, OR-terms separated by pipes, each term `table:field:value`.
pub open spec fn spec_eval_condition(s: OrderRec, cond: Seq<char>) -> EvalAcc {
    spec_eval_groups(s, spec_split(cond, ','), 0, EvalAcc::Unseeded)
}

/// The de-duplication key of one found chain.
#[verifier::loop_isolation(false)]
fn dedup_key(chain: &Vec<&Rec>) -> (r: Option<String>)
    ensures
        match spec_dedup_key(derefs(chain@)) {
            Some(k) => r matches Some(s) && s@ == k,
            None => r is None,
        },
{
    let ghost ch = derefs(chain@);
    let n = chain.len();
    let mut i: usize = 0;
    while i < n
        invariant
            0 <= i <= n,
            n == chain@.len(),
            forall|j: int| 0 <= j < i ==> !(#[trigger] ch[j]).spec_is_ord(),
        decreases n - i,
    {
        let rec: &Rec = chain[i];
        if str_eq(rec.get_field(0), "Ord") {
            proof {
                assert(ch[i as int].spec_is_ord());
                assert(exists|w: int|
                    0 <= w < ch.len() && (#[trigger] ch[w]).spec_is_ord() && forall|j: int|
                        0 <= j < w ==> !(#[trigger] ch[j]).spec_is_ord()) by {
                    assert(0 <= i < ch.len() && ch[i as int].spec_is_ord() && forall|j: int|
                        0 <= j < i ==> !(#[trigger] ch[j]).spec_is_ord());
                }
                let w = choose|w: int|
                    0 <= w < ch.len() && (#[trigger] ch[w]).spec_is_ord() && forall|j: int|
                        0 <= j < w ==> !(#[trigger] ch[j]).spec_is_ord();
                if w < i {
                    assert(!ch[w].spec_is_ord());
                }
                if w > i {
                    assert(!ch[i as int].spec_is_ord());
                }
                assert(w == i);
            }
            return Some(rec.get_field(1).to_owned());
        }
        i = i + 1;
    }
    if chain.len() > 0 {
        let rec: &Rec = chain[0];
        proof {
            assert(!(exists|w: int| 0 <= w < ch.len() && (#[trigger] ch[w]).spec_is_ord()));
        }
        Some(rec.get_field(1).to_owned())
    } else {
        None
    }
}

/// Pushing a chain with a fresh key extends both the union and the set
/// of keys taken, in step.
proof fn lemma_seen_push(or0: Seq<Seq<Rec>>, seen0: Seq<String>, item: Seq<Rec>, kstr: String)
    requires
        forall|k2: Seq<char>| contains_view(seen0, k2) == spec_key_seen(or0, k2),
        spec_dedup_key(item) == Some(kstr@),
    ensures
        forall|k2: Seq<char>|
            contains_view(seen0.push(kstr), k2) == spec_key_seen(or0.push(item), k2),
{
    assert forall|k2: Seq<char>|
        contains_view(seen0.push(kstr), k2) == spec_key_seen(or0.push(item), k2) by {
        if contains_view(seen0.push(kstr), k2) {
            let i = choose|i: int|
                0 <= i < seen0.push(kstr).len() && seen0.push(kstr)[i]@ == k2;
            if i < seen0.len() {
                assert(seen0[i]@ == k2);
                assert(contains_view(seen0, k2));
                let w = choose|w: int|
                    0 <= w < or0.len() && spec_dedup_key(#[trigger] or0[w]) == Some(k2);
                assert(spec_dedup_key(or0.push(item)[w]) == Some(k2));
            } else {
                assert(k2 == kstr@);
                assert(spec_dedup_key(or0.push(item)[or0.len() as int]) == Some(k2));
            }
        }
        if spec_key_seen(or0.push(item), k2) {
            let i = choose|i: int|
                0 <= i < or0.push(item).len() && spec_dedup_key(#[trigger] or0.push(item)[i])
                    == Some(k2);
            if i < or0.len() {
                assert(spec_dedup_key(or0[i]) == Some(k2));
                assert(spec_key_seen(or0, k2));
                let w = choose|w: int| 0 <= w < seen0.len() && seen0[w]@ == k2;
                assert(seen0.push(kstr)[w]@ == k2);
            } else {
                assert(or0.push(item)[i] == item);
                assert(k2 == kstr@);
                assert(seen0.push(kstr)[seen0.len() as int]@ == k2);
            }
        }
    }
}

/// The record store wrapped with the session's running state: cached
/// statistics text and the key of the record ingested last.
pub struct Parser {
    pub ord_rec: OrderRec,
    pub info: String,
    pub prevkey: (String, String),
}

impl Parser {
    pub open spec fn wf(&self) -> bool {
        self.ord_rec.wf()
    }

    pub fn new() -> (r: Parser)
        ensures
            r.wf(),
            r.ord_rec.tables.keys@.len() == 0,
            r.ord_rec.reqs.keys@.len() == 0,
            r.ord_rec.ords.keys@.len() == 0,
            r.ord_rec.req2ord.keys@.len() == 0,
            r.ord_rec.conflicts@.len() == 0,
            r.info@.len() == 0,
    {
        Parser {
            ord_rec: OrderRec::new(),
            info: String::new(),
            prevkey: (String::new(), String::new()),
        }
    }

    /// Splits one primary line on the control byte and stores it; lines
    /// with fewer than four tokens are ignored.
    pub fn parse_line(&mut self, line: &str, log: &str, digsgn: &str)
        requires
            old(self).wf(),
        ensures
            final(self).wf(),
            final(self).info == old(self).info,
            spec_split(line@, '\u{1}').len() <= 3 ==> *final(self) == *old(self),
            spec_split(line@, '\u{1}').len() > 3 ==> exists|toks: Seq<String>|
                #![trigger seq_views(toks)]
                seq_views(toks) == spec_split(line@, '\u{1}') && crate::store::spec_ingested(
                    old(self).ord_rec,
                    final(self).ord_rec,
                    toks,
                    line@,
                    log@,
                    digsgn@,
                    final(self).prevkey.0@,
                    final(self).prevkey.1@,
                ),
    {
        let toks = split_char(line, '\u{1}');
        let ghost gtoks = toks@;
        if toks.len() > 3 {
            let r = self.ord_rec.insert_rec(toks, line, log, digsgn);
            self.prevkey = (r.0.to_owned(), r.1);
            proof {
                assert(seq_views(gtoks) =~= spec_split(line@, '\u{1}'));
                assert(seq_views(gtoks) == spec_split(line@, '\u{1}')
                    && crate::store::spec_ingested(
                    old(self).ord_rec,
                    self.ord_rec,
                    gtoks,
                    line@,
                    log@,
                    digsgn@,
                    self.prevkey.0@,
                    self.prevkey.1@,
                ));
            }
        }
    }

    /// Evaluates a compound AND/OR condition over the store. Commas
    /// separate AND-groups, pipes separate OR-terms; a term is
    /// `table:field:value`, and malformed terms are skipped. A chain
    /// survives only if one with the same leading key was found by every
    /// evaluated group; nothing matches when no group could be
    /// evaluated, or when any evaluated group's union or any
    /// intersection came up empty.
    #[verifier::loop_isolation(false)]
    pub fn find_by_conditions<'a>(&'a self, condstr: &str) -> (r: Option<Vec<Vec<&'a Rec>>>)
        requires
            self.wf(),
        ensures
            match spec_eval_condition(self.ord_rec, condstr@) {
                EvalAcc::Chains(cs) => r matches Some(v) && chain_views(v@) == cs,
                _ => r is None,
            },
    {
        let groups = split_char(condstr, ',');
        let ghost ggroups = spec_split(condstr@, ',');
        let mut acc: Option<Vec<Vec<&'a Rec>>> = None;
        let ng = groups.len();
        let mut gi: usize = 0;
        while gi < ng
            invariant
                0 <= gi <= ng,
                ng == ggroups.len(),
                groups.deep_view() == ggroups,
                spec_eval_groups(self.ord_rec, ggroups, 0, EvalAcc::Unseeded) == spec_eval_groups(
                    self.ord_rec,
                    ggroups,
                    gi as int,
                    match acc {
                        Some(v) => EvalAcc::Chains(chain_views(v@)),
                        None => EvalAcc::Unseeded,
                    },
                ),
            decreases ng - gi,
        {
            proof {
                assert(groups@[gi as int]@ == groups.deep_view()[gi as int]);
            }
            let terms = split_char(groups[gi].as_str(), '|');
            let ghost gterms = spec_split(ggroups[gi as int], '|');
            let mut or_result: Vec<Vec<&'a Rec>> = Vec::new();
            let mut seen: Vec<String> = Vec::new();
            let mut has = false;
            let nt = terms.len();
            let mut ti: usize = 0;
            proof {
                assert(chain_views(or_result@) =~= Seq::<Seq<Rec>>::empty());
            }
            while ti < nt
                invariant
                    0 <= ti <= nt,
                    nt == gterms.len(),
                    terms.deep_view() == gterms,
                    forall|k2: Seq<char>| #[trigger] contains_view(seen@, k2) == spec_key_seen(
                        chain_views(or_result@),
                        k2,
                    ),
                    spec_group_eval(self.ord_rec, gterms, 0, false, Seq::empty())
                        == spec_group_eval(
                        self.ord_rec,
                        gterms,
                        ti as int,
                        has,
                        chain_views(or_result@),
                    ),
                decreases nt - ti,
            {
                proof {
                    assert(terms@[ti as int]@ == terms.deep_view()[ti as int]);
                }
                let trimmed = trim_str(terms[ti].as_str());
                let parts = split_char(trimmed, ':');
                let ghost gparts = spec_split(spec_trim(gterms[ti as int]), ':');
                if parts.len() == 3 {
                    proof {
                        assert(parts@[0]@ == gparts[0]);
                        assert(parts@[1]@ == gparts[1]);
                        assert(parts@[2]@ == gparts[2]);
                    }
                    match self.ord_rec.check_req_data(
                        parts[0].as_str(),
                        parts[1].as_str(),
                        parts[2].as_str(),
                    ) {
                        Some(found) => {
                            has = true;
                            let ghost gfound = chain_views(found@);
                            let ghost u0 = chain_views(or_result@);
                            let nf = found.len();
                            let mut fi: usize = 0;
                            let mut frest = found;
                            while fi < nf
                                invariant
                                    0 <= fi <= nf,
                                    nf == gfound.len(),
                                    frest@.len() == nf - fi,
                                    forall|x: int|
                                        0 <= x < frest@.len() ==> derefs(#[trigger] frest@[x]@)
                                            == gfound[fi + x],
                                    forall|k2: Seq<char>| #[trigger] contains_view(seen@, k2)
                                        == spec_key_seen(chain_views(or_result@), k2),
                                    spec_dedup_append(u0, gfound, 0) == spec_dedup_append(
                                        chain_views(or_result@),
                                        gfound,
                                        fi as int,
                                    ),
                                decreases nf - fi,
                            {
                                let ghost old_frest = frest@;
                                let item = frest.remove(0);
                                proof {
                                    assert(derefs(item@) == gfound[fi as int]);
                                    assert forall|x: int|
                                        0 <= x < frest@.len() implies derefs(
                                        #[trigger] frest@[x]@,
                                    ) == gfound[fi + 1 + x] by {
                                        assert(frest@[x] == old_frest[x + 1]);
                                    }
                                }
                                let ghost pre_or = chain_views(or_result@);
                                let ghost pre_seen = seen@;
                                match dedup_key(&item) {
                                    Some(k) => {
                                        if !contains_str(&seen, k.as_str()) {
                                            let ghost gk = k;
                                            seen.push(k);
                                            or_result.push(item);
                                            proof {
                                                assert(chain_views(or_result@) =~= pre_or.push(
                                                    gfound[fi as int],
                                                ));
                                                lemma_seen_push(
                                                    pre_or,
                                                    pre_seen,
                                                    gfound[fi as int],
                                                    gk,
                                                );
                                            }
                                        }
                                    },
                                    None => {},
                                }
                                fi = fi + 1;
                            }
                        },
                        None => {},
                    }
                }
                ti = ti + 1;
            }
            // an evaluated group with an empty union kills the whole
            // evaluation; so does an empty intersection
            if has {
                if or_result.len() == 0 {
                    return None;
                }
                let cur = acc;
                match cur {
                    None => {
                        acc = Some(or_result);
                    },
                    Some(prev) => {
                        let ghost gprev = chain_views(prev@);
                        let ghost gu = chain_views(or_result@);
                        let mut filtered: Vec<Vec<&'a Rec>> = Vec::new();
                        let np = prev.len();
                        let mut pi: usize = 0;
                        let mut prest = prev;
                        proof {
                            assert(gprev.take(0) =~= Seq::<Seq<Rec>>::empty());
                            assert(chain_views(filtered@) =~= spec_filter_keys(
                                gprev.take(0),
                                gu,
                            ));
                        }
                        while pi < np
                            invariant
                                0 <= pi <= np,
                                np == gprev.len(),
                                prest@.len() == np - pi,
                                forall|x: int|
                                    0 <= x < prest@.len() ==> derefs(#[trigger] prest@[x]@)
                                        == gprev[pi + x],
                                chain_views(filtered@) == spec_filter_keys(
                                    gprev.take(pi as int),
                                    gu,
                                ),
                                gu.len() == or_result@.len(),
                                forall|x: int|
                                    0 <= x < or_result@.len() ==> derefs(
                                        #[trigger] or_result@[x]@,
                                    ) == gu[x],
                            decreases np - pi,
                        {
                            let ghost old_prest = prest@;
                            let item1 = prest.remove(0);
                            proof {
                                assert(derefs(item1@) == gprev[pi as int]);
                                assert forall|x: int|
                                    0 <= x < prest@.len() implies derefs(#[trigger] prest@[x]@)
                                    == gprev[pi + 1 + x] by {
                                    assert(prest@[x] == old_prest[x + 1]);
                                }
                            }
                            let ghost pre_f = chain_views(filtered@);
                            let mut keep = false;
                            if item1.len() > 0 {
                                let rec1: &Rec = item1[0];
                                let key1 = rec1.get_field(1);
                                proof {
                                    assert(*item1@[0] == derefs(item1@)[0]);
                                }
                                let no = or_result.len();
                                let mut oi: usize = 0;
                                while oi < no && !keep
                                    invariant
                                        0 <= oi <= no,
                                        no == or_result@.len(),
                                        keep ==> spec_lead_key_in(
                                            gu,
                                            derefs(item1@)[0].spec_field(1),
                                        ),
                                        !keep ==> forall|j: int|
                                            0 <= j < oi ==> !((#[trigger] gu[j]).len() > 0
                                                && gu[j][0].spec_field(1) == derefs(
                                                item1@,
                                            )[0].spec_field(1)),
                                    decreases no - oi,
                                {
                                    let item2 = &or_result[oi];
                                    if item2.len() > 0 {
                                        let rec2: &Rec = item2[0];
                                        proof {
                                            assert(*item2@[0] == derefs(item2@)[0]);
                                            assert(derefs(item2@) == gu[oi as int]);
                                        }
                                        if str_eq(key1, rec2.get_field(1)) {
                                            keep = true;
                                            proof {
                                                assert(gu[oi as int].len() > 0 && gu[oi as int][0]
                                                    .spec_field(1) == derefs(item1@)[0].spec_field(
                                                    1,
                                                ));
                                            }
                                        }
                                    }
                                    oi = oi + 1;
                                }
                            }
                            proof {
                                assert(gprev.take(pi + 1).drop_last() =~= gprev.take(pi as int));
                                assert(gprev.take(pi + 1).last() == gprev[pi as int]);
                            }
                            if keep {
                                filtered.push(item1);
                                proof {
                                    assert(chain_views(filtered@) =~= pre_f.push(
                                        gprev[pi as int],
                                    ));
                                }
                            } else {
                                proof {
                                    if gprev[pi as int].len() > 0 {
                                        assert(!spec_lead_key_in(
                                            gu,
                                            gprev[pi as int][0].spec_field(1),
                                        ));
                                    }
                                }
                            }
                            pi = pi + 1;
                        }
                        proof {
                            assert(gprev.take(np as int) =~= gprev);
                        }
                        if filtered.len() == 0 {
                            return None;
                        }
                        acc = Some(filtered);
                    },
                }
            }
            gi = gi + 1;
        }
        acc
    }
}

} // verus!
