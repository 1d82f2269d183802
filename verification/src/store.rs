use vstd::prelude::*;
use vstd::string::*;
use crate::kvmap::{KvMap, lemma_insert_effect, lemma_update_val_effect, lemma_find_key_props};
use crate::record::{Rec, spec_tok};
use crate::strutil::{str_eq, contains_str, spec_joined, spec_u64_digits, u64_to_string};

verus! {

/// The positional schema of one record family, learned from its
/// self-describing header record: field name to token position, plus the
/// header's own token values.
pub struct TableRec {
    pub index: KvMap<usize>,
    pub recs: Vec<String>,
}

/// The position a field name reads as in a schema, or -1 when the schema
/// does not know the name.
pub open spec fn map_pos(m: KvMap<usize>, nm: Seq<char>) -> int {
    match m.spec_get(nm) {
        Some(p) => p as int,
        None => -1,
    }
}

/// Position of the last token of `toks` that reads as `name`, or -1: a
/// header maps every token value to its position, later tokens overwriting
/// earlier equal ones.
pub open spec fn spec_hdr_pos(toks: Seq<String>, name: Seq<char>) -> int
    decreases toks.len(),
{
    if toks.len() == 0 {
        -1
    } else if toks.last()@ == name {
        toks.len() - 1
    } else {
        spec_hdr_pos(toks.drop_last(), name)
    }
}

impl TableRec {
    pub open spec fn wf(&self) -> bool {
        self.index.wf()
    }

    /// The declared record kind of the family: the header's token 0.
    pub open spec fn spec_kind(&self) -> Seq<char> {
        spec_tok(self.recs@, 0)
    }

    pub fn new() -> (r: TableRec)
        ensures
            r.wf(),
            r.index.keys@.len() == 0,
            r.recs@.len() == 0,
    {
        TableRec { index: KvMap::new(), recs: Vec::new() }
    }
}

/// Builds the schema a header record describes: every token's value is
/// mapped to its position, and the header's tokens are kept.
#[verifier::loop_isolation(false)]
pub fn build_table(toks: Vec<String>) -> (r: TableRec)
    ensures
        r.wf(),
        r.recs@ == toks@,
        forall|nm: Seq<char>| #[trigger] map_pos(r.index, nm) == spec_hdr_pos(toks@, nm),
{
    let mut index: KvMap<usize> = KvMap::new();
    proof {
        assert(toks@.take(0) =~= Seq::<String>::empty());
        assert forall|nm: Seq<char>| #[trigger] map_pos(index, nm) == spec_hdr_pos(
            toks@.take(0),
            nm,
        ) by {
            lemma_find_key_props(index.keys@, nm, 0);
        }
    }
    let mut i: usize = 0;
    while i < toks.len()
        invariant
            index.wf(),
            0 <= i <= toks@.len(),
            forall|nm: Seq<char>| #[trigger] map_pos(index, nm) == spec_hdr_pos(
                toks@.take(i as int),
                nm,
            ),
        decreases toks@.len() - i,
    {
        let ghost pre = index;
        let k = toks[i].clone();
        let ghost kg: String = k;
        index.insert(k, i);
        proof {
            lemma_insert_effect(pre, index, kg, i as usize);
            assert(toks@.take(i + 1).drop_last() =~= toks@.take(i as int));
            assert(toks@.take(i + 1).len() == i + 1);
            assert(toks@.take(i + 1).last() == toks@[i as int]);
            assert(kg == toks@[i as int]);
            assert forall|nm: Seq<char>| #[trigger] map_pos(index, nm) == spec_hdr_pos(
                toks@.take(i + 1),
                nm,
            ) by {
                assert(map_pos(pre, nm) == spec_hdr_pos(toks@.take(i as int), nm));
                if nm == kg@ {
                    assert(index.spec_get(nm) == Some(i as usize));
                    assert(toks@.take(i + 1).last()@ == nm);
                    assert(spec_hdr_pos(toks@.take(i + 1), nm) == i);
                } else {
                    assert(index.spec_get(nm) == pre.spec_get(nm));
                    assert(toks@.take(i + 1).last()@ != nm);
                    assert(spec_hdr_pos(toks@.take(i + 1), nm) == spec_hdr_pos(
                        toks@.take(i as int),
                        nm,
                    ));
                }
            }
        }
        i = i + 1;
    }
    proof {
        assert(toks@.take(toks@.len() as int) =~= toks@);
    }
    TableRec { index, recs: toks }
}

/// Token `i` of a field tuple as an owned string; empty when the tuple is
/// shorter.
pub fn tok_clone(toks: &Vec<String>, i: usize) -> (r: String)
    ensures
        r@ == spec_tok(toks@, i as int),
{
    if i < toks.len() {
        toks[i].clone()
    } else {
        String::new()
    }
}

/// A field tuple whose key token is the header marker.
pub open spec fn spec_is_header(toks: Seq<String>) -> bool {
    spec_tok(toks, 1) == "-"@
}

/// A field tuple carrying a request record.
pub open spec fn spec_is_req_toks(toks: Seq<String>) -> bool {
    !spec_is_header(toks) && spec_tok(toks, 0) == "Req"@
}

/// A field tuple carrying an order-transition record.
pub open spec fn spec_is_ord_toks(toks: Seq<String>) -> bool {
    !spec_is_header(toks) && spec_tok(toks, 0) == "Ord"@
}

/// Whether `v` is among `s`.
pub open spec fn contains_seq(s: Seq<Seq<char>>, v: Seq<char>) -> bool {
    exists|i: int| 0 <= i < s.len() && s[i] == v
}

/// The distinct non-empty values, in first-appearance order, that the
/// requests of family `table` carry at token position `pos`.
pub open spec fn spec_distinct_vals(reqs: Seq<Rec>, table: Seq<char>, pos: int) -> Seq<Seq<char>>
    decreases reqs.len(),
{
    if reqs.len() == 0 {
        Seq::empty()
    } else {
        let prev = spec_distinct_vals(reqs.drop_last(), table, pos);
        let rec = reqs.last();
        if rec.toks@.len() > 2 && spec_tok(rec.toks@, 2) == table && spec_tok(rec.toks@, pos).len()
            > 0 && !contains_seq(prev, spec_tok(rec.toks@, pos)) {
            prev.push(spec_tok(rec.toks@, pos))
        } else {
            prev
        }
    }
}

/// The records a sequence of references stands for.
pub open spec fn derefs(s: Seq<&Rec>) -> Seq<Rec> {
    s.map_values(|r: &Rec| *r)
}

/// The record sequences a collection of reference chains stands for.
pub open spec fn chain_views(s: Seq<Vec<&Rec>>) -> Seq<Seq<Rec>> {
    s.map_values(|c: Vec<&Rec>| derefs(c@))
}

/// What one ingest step does to a store: `pre` is the store before,
/// `post` after, `toks` the field tuple, and `(r0, r1)` the returned
/// classification and key.
#[verifier::opaque]
pub open spec fn spec_ingested(
    pre: OrderRec,
    post: OrderRec,
    toks: Seq<String>,
    line: Seq<char>,
    log: Seq<char>,
    digsgn: Seq<char>,
    r0: Seq<char>,
    r1: Seq<char>,
) -> bool {
    &&& spec_is_header(toks) ==> {
        &&& post.reqs == pre.reqs
        &&& post.ords == pre.ords
        &&& post.req2ord == pre.req2ord
        &&& post.conflicts == pre.conflicts
        &&& post.tables.spec_get(spec_tok(toks, 2)) matches Some(t) && t.recs@ == toks && forall|
            nm: Seq<char>,
        | #[trigger] map_pos(t.index, nm) == spec_hdr_pos(toks, nm)
        &&& forall|t2: Seq<char>|
            t2 != spec_tok(toks, 2) ==> post.tables.spec_get(t2) == pre.tables.spec_get(t2)
        &&& r0.len() == 0 && r1.len() == 0
    }
    &&& spec_is_req_toks(toks) ==> {
        &&& post.tables == pre.tables
        &&& post.ords == pre.ords
        &&& post.req2ord == pre.req2ord
        &&& post.conflicts == pre.conflicts
        &&& post.reqs.spec_get(spec_tok(toks, 1)) matches Some(rec) && rec.toks@ == toks
            && rec.line@ == line && rec.log@ == log && rec.linked == false && rec.digsgn@
            == digsgn
        &&& forall|k2: Seq<char>|
            k2 != spec_tok(toks, 1) ==> post.reqs.spec_get(k2) == pre.reqs.spec_get(k2)
        &&& r0 == "Req"@ && r1 == spec_tok(toks, 1)
    }
    &&& spec_is_ord_toks(toks) ==> {
        let key = spec_tok(toks, 1);
        let rk = spec_tok(toks, 4);
        let oldch = match pre.ords.spec_get(key) {
            Some(c) => c@,
            None => Seq::<Rec>::empty(),
        };
        &&& post.tables == pre.tables
        &&& post.ords.spec_get(key) matches Some(ch) && ch@.len() == oldch.len() + 1
            && ch@.take(oldch.len() as int) == oldch && ch@.last().toks@ == toks
            && ch@.last().line@ == line && ch@.last().log@ == log && ch@.last().linked == false
            && ch@.last().digsgn@ == digsgn
        &&& forall|k2: Seq<char>|
            k2 != key ==> post.ords.spec_get(k2) == pre.ords.spec_get(k2)
        &&& post.req2ord.spec_get(rk) matches Some(o) && o@ == key
        &&& forall|k2: Seq<char>|
            k2 != rk ==> post.req2ord.spec_get(k2) == pre.req2ord.spec_get(k2)
        &&& ({
            let c0 = pre.conflicts@;
            let c1 = post.conflicts@;
            match pre.req2ord.spec_get(rk) {
                Some(o0) => if o0@ != key {
                    c1.len() == c0.len() + 1 && c1.take(c0.len() as int) == c0 && c1.last().0@
                        == rk && c1.last().1@ == o0@
                } else {
                    c1 == c0
                },
                None => c1 == c0,
            }
        })
        &&& if pre.reqs.spec_contains(rk) {
            post.reqs.spec_get(rk) matches Some(req) && (pre.reqs.spec_get(rk) matches Some(req0)
                && req.toks@ == req0.toks@ && req.line@ == req0.line@ && req.log@ == req0.log@
                && req.digsgn@ == req0.digsgn@ && req.linked == true) && forall|k2: Seq<char>|
                k2 != rk ==> post.reqs.spec_get(k2) == pre.reqs.spec_get(k2)
        } else {
            post.reqs == pre.reqs
        }
        &&& r0 == "Ord"@ && r1 == key
    }
    &&& !spec_is_header(toks) && !spec_is_req_toks(toks) && !spec_is_ord_toks(toks) ==> {
        &&& post == pre
        &&& r0.len() == 0 && r1.len() == 0
    }
}

/// The record store: per-family schemas, all request records keyed by
/// request key, all order-transition chains keyed by order key, the
/// request-to-order correlation map, and the mapping conflicts seen.
pub struct OrderRec {
    pub tables: KvMap<TableRec>,
    pub reqs: KvMap<Rec>,
    pub ords: KvMap<Vec<Rec>>,
    pub req2ord: KvMap<String>,
    pub conflicts: Vec<(String, String)>,
}

impl OrderRec {
    pub open spec fn wf(&self) -> bool {
        &&& self.tables.wf()
        &&& self.reqs.wf()
        &&& self.ords.wf()
        &&& self.req2ord.wf()
        &&& forall|i: int|
            0 <= i < self.tables.vals@.len() ==> (#[trigger] self.tables.vals@[i]).wf()
    }

    pub fn new() -> (r: OrderRec)
        ensures
            r.wf(),
            r.tables.keys@.len() == 0,
            r.reqs.keys@.len() == 0,
            r.ords.keys@.len() == 0,
            r.req2ord.keys@.len() == 0,
            r.conflicts@.len() == 0,
    {
        OrderRec {
            tables: KvMap::new(),
            reqs: KvMap::new(),
            ords: KvMap::new(),
            req2ord: KvMap::new(),
            conflicts: Vec::new(),
        }
    }

    /// Classifies and stores one tokenized record.
    ///
    /// A header tuple (key token `"-"`) replaces the named family's schema
    /// outright. A request tuple inserts or replaces the request under its
    /// key. An order tuple appends to its key's chain, repoints the
    /// referenced request's correlation entry (recording a conflict when a
    /// different order key already claimed it), and marks the referenced
    /// request linked. Anything else changes nothing.
    pub fn insert_rec(&mut self, toks: Vec<String>, line: &str, log: &str, digsgn: &str) -> (r: (
        &'static str,
        String,
    ))
        requires
            old(self).wf(),
        ensures
            final(self).wf(),
            spec_ingested(
                *old(self),
                *final(self),
                toks@,
                line@,
                log@,
                digsgn@,
                r.0@,
                r.1@,
            ),
    {
        proof {
            reveal(spec_ingested);
        }
        let key_str = tok_clone(&toks, 1);
        let hdr = tok_clone(&toks, 0);
        let table_name = tok_clone(&toks, 2);
        let reqkey_str = tok_clone(&toks, 4);
        proof {
            reveal_strlit("");
            assert(""@ =~= Seq::<char>::empty());
            reveal_strlit("Req");
            reveal_strlit("Ord");
            assert("Req"@ != "Ord"@) by {
                assert("Req"@[0] != "Ord"@[0]);
            }
        }
        if str_eq(key_str.as_str(), "-") {
            let ghost pre = self.tables;
            let ghost gname: String = table_name;
            let tab = build_table(toks);
            let ghost gtab = tab;
            self.tables.insert(table_name, tab);
            proof {
                lemma_insert_effect(pre, self.tables, gname, gtab);
                assert forall|i: int|
                    0 <= i < self.tables.vals@.len() implies (
                #[trigger] self.tables.vals@[i]).wf() by {
                    if self.tables.vals@[i] == gtab {
                        assert(gtab.wf());
                    } else {
                        assert(self.tables.vals@[i] == pre.vals@[i]);
                        assert(pre.vals@[i].wf());
                    }
                }
            }
            ("", String::new())
        } else if str_eq(hdr.as_str(), "Req") {
            let rec = Rec {
                toks,
                line: line.to_owned(),
                log: log.to_owned(),
                linked: false,
                digsgn: digsgn.to_owned(),
            };
            let ghost pre = self.reqs;
            let ghost gkey: String = key_str;
            let ghost grec = rec;
            let ret_key = key_str.clone();
            self.reqs.insert(key_str, rec);
            proof {
                lemma_insert_effect(pre, self.reqs, gkey, grec);
            }
            ("Req", ret_key)
        } else if str_eq(hdr.as_str(), "Ord") {
            let rec = Rec {
                toks,
                line: line.to_owned(),
                log: log.to_owned(),
                linked: false,
                digsgn: digsgn.to_owned(),
            };
            let ghost grec = rec;
            // append the transition to its order chain
            let ghost preo = self.ords;
            match self.ords.find(key_str.as_str()) {
                Some(ci) => {
                    let ghost prech = self.ords.vals@[ci as int];
                    self.ords.vals[ci].push(rec);
                    proof {
                        let newch = self.ords.vals@[ci as int];
                        assert(newch@ =~= prech@.push(grec));
                        assert(prech@.push(grec).take(prech@.len() as int) =~= prech@);
                        lemma_update_val_effect(preo, self.ords, key_str@, ci as int, newch);
                    }
                },
                None => {
                    let ghost gkey: String = key_str;
                    let mut ch: Vec<Rec> = Vec::new();
                    ch.push(rec);
                    let ghost gch = ch;
                    self.ords.insert(key_str.clone(), ch);
                    proof {
                        lemma_insert_effect(preo, self.ords, gkey, gch);
                        assert(gch@ =~= Seq::<Rec>::empty().push(grec));
                        assert(gch@.take(0) =~= Seq::<Rec>::empty());
                    }
                },
            }
            // record a conflict when a different order key already claimed
            // the referenced request
            let prev: Option<String> = match self.req2ord.get(reqkey_str.as_str()) {
                Some(o) => Some(o.clone()),
                None => None,
            };
            if let Some(o) = prev {
                if !str_eq(o.as_str(), key_str.as_str()) {
                    let ghost prec = self.conflicts@;
                    self.conflicts.push((reqkey_str.clone(), o));
                    proof {
                        assert(self.conflicts@.take(prec.len() as int) =~= prec);
                    }
                }
            }
            // the newest mapping wins
            let ghost prer = self.req2ord;
            let ghost grk: String = reqkey_str;
            let ghost gor: String = key_str;
            self.req2ord.insert(reqkey_str.clone(), key_str.clone());
            proof {
                lemma_insert_effect(prer, self.req2ord, grk, gor);
            }
            // mark the referenced request as linked
            let ghost preq = self.reqs;
            match self.reqs.find(reqkey_str.as_str()) {
                Some(ri) => {
                    let ghost prereq = self.reqs.vals@[ri as int];
                    self.reqs.vals[ri].linked = true;
                    proof {
                        let newreq = self.reqs.vals@[ri as int];
                        assert(self.reqs.vals@ =~= preq.vals@.update(ri as int, newreq));
                        lemma_update_val_effect(preq, self.reqs, reqkey_str@, ri as int, newreq);
                    }
                },
                None => {},
            }
            ("Ord", key_str)
        } else {
            ("", String::new())
        }
    }

    /// The narrative for one order key: its transitions in arrival order,
    /// with the request record that triggered each run of transitions
    /// inserted in front of the run. `last` is the request key most
    /// recently seen; a missing request is simply omitted.
    pub open spec fn spec_chain_from(&self, list: Seq<Rec>, i: int, last: Seq<char>) -> Seq<Rec>
        decreases list.len() - i,
    {
        if i < 0 || i >= list.len() {
            Seq::empty()
        } else {
            let rk = spec_tok(list[i].toks@, 4);
            if rk == last {
                seq![list[i]] + self.spec_chain_from(list, i + 1, last)
            } else {
                match self.reqs.spec_get(rk) {
                    Some(req) => seq![req, list[i]] + self.spec_chain_from(list, i + 1, rk),
                    None => seq![list[i]] + self.spec_chain_from(list, i + 1, rk),
                }
            }
        }
    }

    pub open spec fn spec_chain(&self, key: Seq<char>) -> Seq<Rec> {
        match self.ords.spec_get(key) {
            Some(list) => self.spec_chain_from(list@, 0, ""@),
            None => Seq::empty(),
        }
    }

    /// Reconstructs the interleaved request/transition narrative for one
    /// order key.
    #[verifier::loop_isolation(false)]
    pub fn get_target_ordlist<'a>(&'a self, key: &str) -> (r: Vec<&'a Rec>)
        requires
            self.wf(),
        ensures
            derefs(r@) == self.spec_chain(key@),
    {
        let mut out: Vec<&'a Rec> = Vec::new();
        proof {
            assert(derefs(out@) =~= Seq::<Rec>::empty());
        }
        match self.ords.find(key) {
            None => out,
            Some(ci) => {
                let list = &self.ords.vals[ci];
                let n = list.len();
                let mut lastreq: &str = "";
                let mut i: usize = 0;
                proof {
                    assert(derefs(out@) + self.spec_chain_from(list@, 0, lastreq@)
                        =~= self.spec_chain_from(list@, 0, lastreq@));
                }
                while i < n
                    invariant
                        0 <= i <= n,
                        n == list@.len(),
                        self.spec_chain(key@) == derefs(out@) + self.spec_chain_from(
                            list@,
                            i as int,
                            lastreq@,
                        ),
                    decreases n - i,
                {
                    let cur = &list[i];
                    let ord_reqkey = cur.get_field(4);
                    let ghost pre_out = out@;
                    let ghost pre_last = lastreq@;
                    if !str_eq(lastreq, ord_reqkey) {
                        match self.reqs.get(ord_reqkey) {
                            Some(req) => {
                                out.push(req);
                                proof {
                                    assert(derefs(out@) =~= derefs(pre_out).push(*req));
                                }
                            },
                            None => {},
                        }
                        lastreq = ord_reqkey;
                    }
                    let ghost mid_out = out@;
                    out.push(cur);
                    proof {
                        assert(derefs(out@) =~= derefs(mid_out).push(list@[i as int]));
                        let rk = spec_tok(list@[i as int].toks@, 4);
                        if rk == pre_last {
                            assert(self.spec_chain_from(list@, i as int, pre_last) == seq![
                                list@[i as int],
                            ] + self.spec_chain_from(list@, i + 1, pre_last));
                            assert(derefs(out@) + self.spec_chain_from(list@, i + 1, lastreq@)
                                =~= derefs(pre_out) + self.spec_chain_from(
                                list@,
                                i as int,
                                pre_last,
                            ));
                        } else {
                            match self.reqs.spec_get(rk) {
                                Some(req) => {
                                    assert(self.spec_chain_from(list@, i as int, pre_last)
                                        == seq![req, list@[i as int]] + self.spec_chain_from(
                                        list@,
                                        i + 1,
                                        rk,
                                    ));
                                    assert(derefs(out@) + self.spec_chain_from(
                                        list@,
                                        i + 1,
                                        lastreq@,
                                    ) =~= derefs(pre_out) + self.spec_chain_from(
                                        list@,
                                        i as int,
                                        pre_last,
                                    ));
                                },
                                None => {
                                    assert(self.spec_chain_from(list@, i as int, pre_last)
                                        == seq![list@[i as int]] + self.spec_chain_from(
                                        list@,
                                        i + 1,
                                        rk,
                                    ));
                                    assert(derefs(out@) + self.spec_chain_from(
                                        list@,
                                        i + 1,
                                        lastreq@,
                                    ) =~= derefs(pre_out) + self.spec_chain_from(
                                        list@,
                                        i as int,
                                        pre_last,
                                    ));
                                },
                            }
                        }
                    }
                    i = i + 1;
                }
                proof {
                    assert(self.spec_chain_from(list@, n as int, lastreq@) =~= Seq::<Rec>::empty());
                    assert(derefs(out@) + Seq::<Rec>::empty() =~= derefs(out@));
                }
                out
            },
        }
    }

    /// Whether a record matches `table` and carries `target` at token
    /// position `key_index`, and if so which order key it leads to: an
    /// order transition's own key, or the correlated order key of a
    /// request. A request that was never correlated matches nothing: that
    /// lookup failure is local, it does not abort the query.
    pub open spec fn spec_check_rec(
        &self,
        rec: Rec,
        table: Seq<char>,
        key_index: int,
        target: Seq<char>,
    ) -> Option<Seq<char>> {
        if rec.toks@.len() < 3 || rec.spec_field(2) != table {
            None
        } else if rec.toks@.len() > key_index && rec.spec_field(key_index) == target {
            if rec.spec_is_ord() {
                Some(rec.spec_field(1))
            } else if rec.spec_is_req() {
                match self.req2ord.spec_get(rec.spec_field(1)) {
                    Some(o) => Some(o@),
                    None => None,
                }
            } else {
                None
            }
        } else {
            None
        }
    }

    pub fn check_rec(&self, rec: &Rec, table_name: &str, key_index: usize, target: &str) -> (r:
        Option<String>)
        requires
            self.wf(),
        ensures
            match self.spec_check_rec(*rec, table_name@, key_index as int, target@) {
                Some(k) => r matches Some(s) && s@ == k,
                None => r is None,
            },
    {
        if rec.toks.len() < 3 || !str_eq(rec.get_field(2), table_name) {
            return None;
        }
        if rec.toks.len() > key_index && str_eq(rec.get_field(key_index), target) {
            if str_eq(rec.get_field(0), "Ord") {
                Some(rec.get_field(1).to_owned())
            } else if str_eq(rec.get_field(0), "Req") {
                match self.req2ord.get(rec.get_field(1)) {
                    Some(o) => Some(o.clone()),
                    None => None,
                }
            } else {
                None
            }
        } else {
            None
        }
    }

    /// The chains found by scanning all requests at or after position `i`
    /// against one predicate.
    pub open spec fn spec_find_req_from(
        &self,
        table: Seq<char>,
        key_index: int,
        target: Seq<char>,
        i: int,
    ) -> Seq<Seq<Rec>>
        decreases self.reqs.vals@.len() - i,
    {
        if i < 0 || i >= self.reqs.vals@.len() {
            Seq::empty()
        } else {
            let rest = self.spec_find_req_from(table, key_index, target, i + 1);
            match self.spec_check_rec(self.reqs.vals@[i], table, key_index, target) {
                Some(k) => seq![self.spec_chain(k)] + rest,
                None => rest,
            }
        }
    }

    pub open spec fn spec_find_req(
        &self,
        table: Seq<char>,
        key_index: int,
        target: Seq<char>,
    ) -> Seq<Seq<Rec>> {
        self.spec_find_req_from(table, key_index, target, 0)
    }

    /// Scans all requests against one predicate and collects the chains of
    /// the matches, in the requests' stored order.
    #[verifier::loop_isolation(false)]
    pub fn find_req<'a>(&'a self, table_name: &str, key_index: usize, target: &str) -> (r: Vec<
        Vec<&'a Rec>,
    >)
        requires
            self.wf(),
        ensures
            chain_views(r@) == self.spec_find_req(table_name@, key_index as int, target@),
    {
        let mut out: Vec<Vec<&'a Rec>> = Vec::new();
        let n = self.reqs.vals.len();
        let mut i: usize = 0;
        proof {
            assert(chain_views(out@) + self.spec_find_req_from(
                table_name@,
                key_index as int,
                target@,
                0,
            ) =~= self.spec_find_req_from(table_name@, key_index as int, target@, 0));
        }
        while i < n
            invariant
                0 <= i <= n,
                n == self.reqs.vals@.len(),
                self.spec_find_req(table_name@, key_index as int, target@) == chain_views(out@)
                    + self.spec_find_req_from(table_name@, key_index as int, target@, i as int),
            decreases n - i,
        {
            let ghost pre_out = out@;
            match self.check_rec(&self.reqs.vals[i], table_name, key_index, target) {
                Some(k) => {
                    let ch = self.get_target_ordlist(k.as_str());
                    proof {
                        assert(derefs(ch@) == self.spec_chain(k@));
                    }
                    out.push(ch);
                    proof {
                        assert(chain_views(out@) =~= chain_views(pre_out).push(derefs(ch@)));
                        assert(chain_views(out@) + self.spec_find_req_from(
                            table_name@,
                            key_index as int,
                            target@,
                            i + 1,
                        ) =~= chain_views(pre_out) + self.spec_find_req_from(
                            table_name@,
                            key_index as int,
                            target@,
                            i as int,
                        ));
                    }
                },
                None => {},
            }
            i = i + 1;
        }
        proof {
            assert(self.spec_find_req_from(table_name@, key_index as int, target@, n as int)
                =~= Seq::<Seq<Rec>>::empty());
            assert(chain_views(out@) + Seq::<Seq<Rec>>::empty() =~= chain_views(out@));
        }
        out
    }

    /// The chains found by checking, for each order key at or after
    /// position `i`, only its most recent transition.
    pub open spec fn spec_find_ord_from(
        &self,
        table: Seq<char>,
        key_index: int,
        target: Seq<char>,
        i: int,
    ) -> Seq<Seq<Rec>>
        decreases self.ords.vals@.len() - i,
    {
        if i < 0 || i >= self.ords.vals@.len() {
            Seq::empty()
        } else {
            let rest = self.spec_find_ord_from(table, key_index, target, i + 1);
            let ch = self.ords.vals@[i]@;
            if ch.len() > 0 {
                match self.spec_check_rec(ch.last(), table, key_index, target) {
                    Some(k) => seq![self.spec_chain(k)] + rest,
                    None => rest,
                }
            } else {
                rest
            }
        }
    }

    pub open spec fn spec_find_ord(
        &self,
        table: Seq<char>,
        key_index: int,
        target: Seq<char>,
    ) -> Seq<Seq<Rec>> {
        self.spec_find_ord_from(table, key_index, target, 0)
    }

    /// Scans every order chain's most recent transition against one
    /// predicate and collects the chains of the matches.
    #[verifier::loop_isolation(false)]
    pub fn find_ord<'a>(&'a self, table_name: &str, key_index: usize, target: &str) -> (r: Vec<
        Vec<&'a Rec>,
    >)
        requires
            self.wf(),
        ensures
            chain_views(r@) == self.spec_find_ord(table_name@, key_index as int, target@),
    {
        let mut out: Vec<Vec<&'a Rec>> = Vec::new();
        let n = self.ords.vals.len();
        let mut i: usize = 0;
        proof {
            assert(chain_views(out@) + self.spec_find_ord_from(
                table_name@,
                key_index as int,
                target@,
                0,
            ) =~= self.spec_find_ord_from(table_name@, key_index as int, target@, 0));
        }
        while i < n
            invariant
                0 <= i <= n,
                n == self.ords.vals@.len(),
                self.spec_find_ord(table_name@, key_index as int, target@) == chain_views(out@)
                    + self.spec_find_ord_from(table_name@, key_index as int, target@, i as int),
            decreases n - i,
        {
            let ghost pre_out = out@;
            let list = &self.ords.vals[i];
            if list.len() > 0 {
                match self.check_rec(&list[list.len() - 1], table_name, key_index, target) {
                    Some(k) => {
                        let ch = self.get_target_ordlist(k.as_str());
                        out.push(ch);
                        proof {
                            assert(chain_views(out@) =~= chain_views(pre_out).push(derefs(ch@)));
                            assert(list@.last() == list@[list@.len() - 1]);
                            assert(chain_views(out@) + self.spec_find_ord_from(
                                table_name@,
                                key_index as int,
                                target@,
                                i + 1,
                            ) =~= chain_views(pre_out) + self.spec_find_ord_from(
                                table_name@,
                                key_index as int,
                                target@,
                                i as int,
                            ));
                        }
                    },
                    None => {},
                }
            }
            i = i + 1;
        }
        proof {
            assert(self.spec_find_ord_from(table_name@, key_index as int, target@, n as int)
                =~= Seq::<Seq<Rec>>::empty());
            assert(chain_views(out@) + Seq::<Seq<Rec>>::empty() =~= chain_views(out@));
        }
        out
    }

    /// The order key the first record of a chain to match the predicate
    /// leads to.
    pub open spec fn spec_chain_hit(
        &self,
        chain: Seq<Rec>,
        table: Seq<char>,
        key_index: int,
        target: Seq<char>,
        j: int,
    ) -> Option<Seq<char>>
        decreases chain.len() - j,
    {
        if j < 0 || j >= chain.len() {
            None
        } else {
            match self.spec_check_rec(chain[j], table, key_index, target) {
                Some(k) => Some(k),
                None => self.spec_chain_hit(chain, table, key_index, target, j + 1),
            }
        }
    }

    /// The chains that a previous result's chains lead to when searched
    /// again under one predicate.
    pub open spec fn spec_find_list_scan(
        &self,
        chains: Seq<Seq<Rec>>,
        table: Seq<char>,
        key_index: int,
        target: Seq<char>,
    ) -> Seq<Seq<Rec>>
        decreases chains.len(),
    {
        if chains.len() == 0 {
            Seq::empty()
        } else {
            let prev = self.spec_find_list_scan(chains.drop_last(), table, key_index, target);
            match self.spec_chain_hit(chains.last(), table, key_index, target, 0) {
                Some(k) => prev.push(self.spec_chain(k)),
                None => prev,
            }
        }
    }

    pub open spec fn spec_find_list(
        &self,
        chains: Seq<Seq<Rec>>,
        table: Seq<char>,
        field: Seq<char>,
        target: Seq<char>,
    ) -> Seq<Seq<Rec>> {
        match self.tables.spec_get(table) {
            Some(t) => match t.index.spec_get(field) {
                Some(p) => self.spec_find_list_scan(chains, table, p as int, target),
                None => Seq::empty(),
            },
            None => Seq::empty(),
        }
    }

    /// Searches a previous result again under one more predicate: each
    /// chain with a matching record is replaced by the chain its match
    /// leads to. An unknown table or field finds nothing.
    #[verifier::loop_isolation(false)]
    pub fn find_list<'a>(
        &'a self,
        list_of_list: Vec<Vec<&'a Rec>>,
        table_name: &str,
        field_name: &str,
        search_target: &str,
    ) -> (r: Option<Vec<Vec<&'a Rec>>>)
        requires
            self.wf(),
        ensures
            r matches Some(v) && chain_views(v@) == self.spec_find_list(
                chain_views(list_of_list@),
                table_name@,
                field_name@,
                search_target@,
            ),
    {
        let ghost gchains = chain_views(list_of_list@);
        let mut out: Vec<Vec<&'a Rec>> = Vec::new();
        match self.tables.get(table_name) {
            None => Some(out),
            Some(tabrec) => {
                proof {
                    lemma_find_key_props(self.tables.keys@, table_name@, 0);
                }
                match tabrec.index.get(field_name) {
                    None => Some(out),
                    Some(idx) => {
                        let pos = *idx;
                        let nc = list_of_list.len();
                        let mut ci: usize = 0;
                        let mut crest = list_of_list;
                        proof {
                            assert(gchains.take(0) =~= Seq::<Seq<Rec>>::empty());
                            assert(chain_views(out@) =~= self.spec_find_list_scan(
                                gchains.take(0),
                                table_name@,
                                pos as int,
                                search_target@,
                            ));
                        }
                        while ci < nc
                            invariant
                                0 <= ci <= nc,
                                nc == gchains.len(),
                                crest@.len() == nc - ci,
                                forall|x: int|
                                    0 <= x < crest@.len() ==> derefs(#[trigger] crest@[x]@)
                                        == gchains[ci + x],
                                chain_views(out@) == self.spec_find_list_scan(
                                    gchains.take(ci as int),
                                    table_name@,
                                    pos as int,
                                    search_target@,
                                ),
                            decreases nc - ci,
                        {
                            let ghost old_crest = crest@;
                            let chain = crest.remove(0);
                            proof {
                                assert(derefs(chain@) == gchains[ci as int]);
                                assert forall|x: int|
                                    0 <= x < crest@.len() implies derefs(#[trigger] crest@[x]@)
                                    == gchains[ci + 1 + x] by {
                                    assert(crest@[x] == old_crest[x + 1]);
                                }
                            }
                            let n = chain.len();
                            let mut j: usize = 0;
                            let mut hit: Option<String> = None;
                            while j < n && hit.is_none()
                                invariant
                                    0 <= j <= n,
                                    n == chain@.len(),
                                    derefs(chain@) == gchains[ci as int],
                                    match hit {
                                        Some(k) => self.spec_chain_hit(
                                            gchains[ci as int],
                                            table_name@,
                                            pos as int,
                                            search_target@,
                                            0,
                                        ) matches Some(gk) && k@ == gk,
                                        None => self.spec_chain_hit(
                                            gchains[ci as int],
                                            table_name@,
                                            pos as int,
                                            search_target@,
                                            0,
                                        ) == self.spec_chain_hit(
                                            gchains[ci as int],
                                            table_name@,
                                            pos as int,
                                            search_target@,
                                            j as int,
                                        ),
                                    },
                                decreases n - j,
                            {
                                proof {
                                    assert(*chain@[j as int] == gchains[ci as int][j as int]);
                                }
                                hit = self.check_rec(chain[j], table_name, pos, search_target);
                                j = j + 1;
                            }
                            let ghost pre_out = chain_views(out@);
                            match hit {
                                Some(k) => {
                                    let ch = self.get_target_ordlist(k.as_str());
                                    out.push(ch);
                                    proof {
                                        assert(chain_views(out@) =~= pre_out.push(derefs(ch@)));
                                    }
                                },
                                None => {
                                    proof {
                                        assert(self.spec_chain_hit(
                                            gchains[ci as int],
                                            table_name@,
                                            pos as int,
                                            search_target@,
                                            n as int,
                                        ) is None);
                                    }
                                },
                            }
                            proof {
                                assert(gchains.take(ci + 1).drop_last() =~= gchains.take(
                                    ci as int,
                                ));
                                assert(gchains.take(ci + 1).last() == gchains[ci as int]);
                            }
                            ci = ci + 1;
                        }
                        proof {
                            assert(gchains.take(nc as int) =~= gchains);
                        }
                        Some(out)
                    },
                }
            },
        }
    }

    /// Evaluates one `table:field:target` predicate: the table's declared
    /// record kind dispatches the scan to the requests or to the order
    /// chains; an unknown table, field, or kind yields nothing.
    pub open spec fn spec_check_req_data(
        &self,
        table: Seq<char>,
        field: Seq<char>,
        target: Seq<char>,
    ) -> Option<Seq<Seq<Rec>>> {
        match self.tables.spec_get(table) {
            Some(t) => match t.index.spec_get(field) {
                Some(p) => if t.spec_kind() == "Req"@ {
                    Some(self.spec_find_req(table, p as int, target))
                } else if t.spec_kind() == "Ord"@ {
                    Some(self.spec_find_ord(table, p as int, target))
                } else {
                    None
                },
                None => None,
            },
            None => None,
        }
    }

    pub fn check_req_data<'a>(
        &'a self,
        table_name: &str,
        field_name: &str,
        search_target: &str,
    ) -> (r: Option<Vec<Vec<&'a Rec>>>)
        requires
            self.wf(),
        ensures
            match self.spec_check_req_data(table_name@, field_name@, search_target@) {
                Some(ll) => r matches Some(v) && chain_views(v@) == ll,
                None => r is None,
            },
    {
        match self.tables.get(table_name) {
            Some(tabrec) => {
                proof {
                    lemma_find_key_props(self.tables.keys@, table_name@, 0);
                }
                match tabrec.index.get(field_name) {
                    Some(idx) => {
                        let kind = if tabrec.recs.len() > 0 {
                            tabrec.recs[0].as_str()
                        } else {
                            proof {
                                reveal_strlit("");
                                assert(""@ =~= Seq::<char>::empty());
                            }
                            ""
                        };
                        let pos = *idx;
                        if str_eq(kind, "Req") {
                            Some(self.find_req(table_name, pos, search_target))
                        } else if str_eq(kind, "Ord") {
                            Some(self.find_ord(table_name, pos, search_target))
                        } else {
                            None
                        }
                    },
                    None => None,
                }
            },
            None => None,
        }
    }

    /// Resolves the schema and scans all requests of the family,
    /// collecting each distinct non-empty value of the field, in
    /// first-appearance order, into the statistic text. An unknown table
    /// or field yields the matching complaint instead.
    #[verifier::loop_isolation(false)]
    pub fn statistic_field(&self, table_name: &str, field_name: &str) -> (r: String)
        requires
            self.wf(),
        ensures
            r@ == match self.tables.spec_get(table_name@) {
                Some(t) => match t.index.spec_get(field_name@) {
                    Some(p) => {
                        let items = spec_distinct_vals(self.reqs.vals@, table_name@, p as int);
                        "there are totally "@ + spec_u64_digits(items.len() as int) + " "@
                            + field_name@ + " of "@ + table_name@ + ":\n"@ + spec_joined(items)
                    },
                    None => "there is no "@ + field_name@ + " field"@,
                },
                None => "there is no "@ + table_name@ + " table"@,
            },
    {
        match self.tables.get(table_name) {
            Some(tabrec) => {
                proof {
                    lemma_find_key_props(self.tables.keys@, table_name@, 0);
                }
                match tabrec.index.get(field_name) {
                    Some(idx) => {
                        let vals = self.distinct_values_at(table_name, *idx);
                        let ghost items = spec_distinct_vals(
                            self.reqs.vals@,
                            table_name@,
                            *idx as int,
                        );
                        let mut s = "there are totally ".to_owned();
                        let cnt = u64_to_string(vals.len() as u64);
                        s.append(cnt.as_str());
                        s.append(" ");
                        s.append(field_name);
                        s.append(" of ");
                        s.append(table_name);
                        s.append(":\n");
                        let ghost head = s@;
                        let mut j: usize = 0;
                        proof {
                            assert(items.take(0) =~= Seq::<Seq<char>>::empty());
                        }
                        while j < vals.len()
                            invariant
                                0 <= j <= vals@.len(),
                                vals@.len() == items.len(),
                                forall|a: int| 0 <= a < vals@.len() ==> vals@[a]@ == items[a],
                                s@ == head + spec_joined(items.take(j as int)),
                            decreases vals@.len() - j,
                        {
                            s.append(vals[j].as_str());
                            s.append("\n");
                            proof {
                                assert(items.take(j + 1).drop_last() =~= items.take(j as int));
                                assert(items.take(j + 1).last() == items[j as int]);
                                assert(s@ =~= head + spec_joined(items.take(j + 1)));
                            }
                            j = j + 1;
                        }
                        proof {
                            assert(items.take(items.len() as int) =~= items);
                        }
                        s
                    },
                    None => {
                        let mut s = "there is no ".to_owned();
                        s.append(field_name);
                        s.append(" field");
                        proof {
                            assert(s@ =~= "there is no "@ + field_name@ + " field"@);
                        }
                        s
                    },
                }
            },
            None => {
                let mut s = "there is no ".to_owned();
                s.append(table_name);
                s.append(" table");
                proof {
                    assert(s@ =~= "there is no "@ + table_name@ + " table"@);
                }
                s
            },
        }
    }

    /// The distinct non-empty values that requests of family `table`
    /// carry in the named field, in first-appearance order; nothing when
    /// the table or the field is unknown.
    pub fn distinct_field_values(&self, table_name: &str, field_name: &str) -> (r: Option<
        Vec<String>,
    >)
        requires
            self.wf(),
        ensures
            match self.tables.spec_get(table_name@) {
                Some(t) => match t.index.spec_get(field_name@) {
                    Some(p) => r matches Some(v) && v@.len() == spec_distinct_vals(
                        self.reqs.vals@,
                        table_name@,
                        p as int,
                    ).len() && forall|j: int|
                        0 <= j < v@.len() ==> v@[j]@ == spec_distinct_vals(
                            self.reqs.vals@,
                            table_name@,
                            p as int,
                        )[j],
                    None => r is None,
                },
                None => r is None,
            },
    {
        match self.tables.get(table_name) {
            Some(tabrec) => {
                proof {
                    lemma_find_key_props(self.tables.keys@, table_name@, 0);
                }
                match tabrec.index.get(field_name) {
                    Some(idx) => Some(self.distinct_values_at(table_name, *idx)),
                    None => None,
                }
            },
            None => None,
        }
    }

    /// The distinct non-empty values that requests of family `table`
    /// carry at token position `pos`, in first-appearance order.
    #[verifier::loop_isolation(false)]
    pub fn distinct_values_at(&self, table_name: &str, pos: usize) -> (r: Vec<String>)
        requires
            self.wf(),
        ensures
            r@.len() == spec_distinct_vals(self.reqs.vals@, table_name@, pos as int).len(),
            forall|j: int|
                0 <= j < r@.len() ==> r@[j]@ == spec_distinct_vals(
                    self.reqs.vals@,
                    table_name@,
                    pos as int,
                )[j],
    {
        let mut out: Vec<String> = Vec::new();
        let n = self.reqs.vals.len();
        let mut i: usize = 0;
        let ghost whole = self.reqs.vals@;
        proof {
            assert(whole.take(0) =~= Seq::<Rec>::empty());
        }
        while i < n
            invariant
                0 <= i <= n,
                n == whole.len(),
                out@.len() == spec_distinct_vals(whole.take(i as int), table_name@, pos as int)
                    .len(),
                forall|j: int|
                    0 <= j < out@.len() ==> out@[j]@ == spec_distinct_vals(
                        whole.take(i as int),
                        table_name@,
                        pos as int,
                    )[j],
            decreases n - i,
        {
            let ghost prev = spec_distinct_vals(whole.take(i as int), table_name@, pos as int);
            proof {
                assert(whole.take(i + 1).drop_last() =~= whole.take(i as int));
                assert(whole.take(i + 1).last() == whole[i as int]);
            }
            let rec = &self.reqs.vals[i];
            if rec.toks.len() > 2 && str_eq(rec.get_field(2), table_name) {
                let val = rec.get_field(pos);
                if !val.is_empty() {
                    let had = contains_str(&out, val);
                    proof {
                        if had {
                            let w = choose|w: int| 0 <= w < out@.len() && out@[w]@ == val@;
                            assert(prev[w] == val@);
                            assert(contains_seq(prev, val@));
                        } else {
                            if contains_seq(prev, val@) {
                                let w = choose|w: int| 0 <= w < prev.len() && prev[w] == val@;
                                assert(out@[w]@ == val@);
                            }
                        }
                    }
                    if !had {
                        out.push(val.to_owned());
                    }
                }
            }
            i = i + 1;
        }
        proof {
            assert(whole.take(n as int) =~= whole);
        }
        out
    }

    /// What a record's field reads as under the registered schemas: the
    /// record's table token selects a schema, the field name selects a
    /// position, and the record's token there is the value. Any missing
    /// step reads as the empty value.
    pub open spec fn spec_resolve(&self, rec: Rec, field: Seq<char>) -> Seq<char> {
        if rec.toks@.len() > 2 {
            match self.tables.spec_get(rec.spec_field(2)) {
                Some(t) => match t.index.spec_get(field) {
                    Some(p) => rec.spec_field(p as int),
                    None => Seq::empty(),
                },
                None => Seq::empty(),
            }
        } else {
            Seq::empty()
        }
    }

    /// Resolves a field of a record by name. Never fails: an unknown
    /// table, field, or position reads as the empty string.
    pub fn get_value(&self, rec: &Rec, field_name: &str) -> (r: String)
        requires
            self.wf(),
        ensures
            r@ == self.spec_resolve(*rec, field_name@),
    {
        if rec.toks.len() > 2 {
            match self.tables.get(rec.get_field(2)) {
                Some(tabrec) => {
                    proof {
                        lemma_find_key_props(self.tables.keys@, rec.spec_field(2), 0);
                    }
                    match tabrec.index.get(field_name) {
                        Some(idx) => rec.get_field(*idx).to_owned(),
                        None => String::new(),
                    }
                },
                None => String::new(),
            }
        } else {
            String::new()
        }
    }
}

} // verus!
