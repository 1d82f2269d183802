use vstd::prelude::*;
use vstd::string::*;
use crate::record::Rec;
use crate::store::{OrderRec, derefs};
use crate::query::Parser;
use crate::strutil::{str_eq, spec_pad_left, pad_left};
use crate::timefmt::{spec_off_ok, spec_date_out, spec_time_out};

verus! {

/// The action letter a request kind maps to; any other kind produces no
/// audit line.
pub open spec fn spec_kind_char(k: Seq<char>) -> Option<Seq<char>> {
    if k == "1"@ {
        Some("O"@)
    } else if k == "4"@ {
        Some("C"@)
    } else if k == "2"@ || k == "3"@ {
        Some("M"@)
    } else {
        None
    }
}

/// The fixed-width audit line: pipe-delimited, the account number
/// zero-padded to seven places, the user right-justified to fifteen.
pub open spec fn spec_audit_line(
    date: Seq<char>,
    brk: Seq<char>,
    ivac: Seq<char>,
    kind: Seq<char>,
    uid: Seq<char>,
    time: Seq<char>,
    sgn: Seq<char>,
) -> Seq<char> {
    "|"@ + date + "|"@ + brk + "|"@ + spec_pad_left(ivac, '0', 7) + "|"@ + kind + "|"@
        + spec_pad_left(uid, ' ', 15) + "|"@ + time + "|"@ + sgn + "\n"@
}

/// Index of the first request record in a chain, or -1.
pub open spec fn spec_first_req_idx(list: Seq<Rec>, i: int) -> int
    decreases list.len() - i,
{
    if i < 0 || i >= list.len() {
        -1
    } else if list[i].spec_is_req() {
        i
    } else {
        spec_first_req_idx(list, i + 1)
    }
}

/// The request whose broker and account numbers back up empty fields of
/// a request found by key: the correlated order's first request-kind
/// entry, looked up again in the request store.
pub open spec fn spec_fallback_req(s: OrderRec, req_key: Seq<char>) -> Option<Rec> {
    match s.req2ord.spec_get(req_key) {
        Some(okey) => match s.ords.spec_get(okey@) {
            Some(list) => {
                let j = spec_first_req_idx(list@, 0);
                if j >= 0 {
                    s.reqs.spec_get(list@[j].spec_field(1))
                } else {
                    None
                }
            },
            None => None,
        },
        None => None,
    }
}

/// A broker/account pair with empty members replaced from the fallback
/// request, when there is one.
pub open spec fn spec_fill_pair(
    brk0: Seq<char>,
    ivac0: Seq<char>,
    s: OrderRec,
    fb: Option<Rec>,
) -> (Seq<char>, Seq<char>) {
    match fb {
        Some(fr) => (
            if brk0.len() == 0 {
                s.spec_resolve(fr, "BrkNo"@)
            } else {
                brk0
            },
            if ivac0.len() == 0 {
                s.spec_resolve(fr, "IvacNo"@)
            } else {
                ivac0
            },
        ),
        None => (brk0, ivac0),
    }
}

/// The audit line one stored request contributes in the all-requests
/// sweep (no session filter), or nothing. `dt` is the date and time its
/// timestamp rendered to.
pub open spec fn spec_audit_entry(
    s: OrderRec,
    key: Seq<char>,
    req: Rec,
    dt: (Seq<char>, Seq<char>),
) -> Seq<char> {
    if !req.spec_is_req() {
        Seq::empty()
    } else {
        match spec_kind_char(s.spec_resolve(req, "ReqKind"@)) {
            Some(kc) => {
                let brk0 = s.spec_resolve(req, "BrkNo"@);
                let ivac0 = s.spec_resolve(req, "IvacNo"@);
                let pair = if brk0.len() == 0 || ivac0.len() == 0 {
                    spec_fill_pair(brk0, ivac0, s, spec_fallback_req(s, key))
                } else {
                    (brk0, ivac0)
                };
                spec_audit_line(
                    dt.0,
                    pair.0,
                    pair.1,
                    kc,
                    s.spec_resolve(req, "FromUID"@),
                    dt.1,
                    req.digsgn@,
                )
            },
            None => Seq::empty(),
        }
    }
}

/// A date/time pair some run of the zone lookup could have produced for
/// this record.
pub open spec fn spec_dt_ok(req: Rec, dt: (Seq<char>, Seq<char>)) -> bool {
    exists|off1: Option<int>, off2: Option<int>|
        spec_off_ok(off1) && spec_off_ok(off2) && dt.0 == spec_date_out(req, off1) && dt.1
            == spec_time_out(req, off2)
}

/// The audit lines of the first `dts.len()` stored requests,
/// concatenated.
pub open spec fn spec_pki_upto(s: OrderRec, dts: Seq<(Seq<char>, Seq<char>)>) -> Seq<char>
    decreases dts.len(),
{
    if dts.len() == 0 {
        Seq::empty()
    } else {
        let i = dts.len() - 1;
        spec_pki_upto(s, dts.drop_last()) + spec_audit_entry(
            s,
            s.reqs.keys@[i]@,
            s.reqs.vals@[i],
            dts.last(),
        )
    }
}

impl OrderRec {
    /// The audit line for one stored request, rendered with the given
    /// date and time texts; empty when the request does not qualify.
    #[verifier::loop_isolation(false)]
    pub fn audit_entry(&self, key: &str, req: &Rec, date: &str, time: &str) -> (r: String)
        requires
            self.wf(),
        ensures
            r@ == spec_audit_entry(*self, key@, *req, (date@, time@)),
    {
        if !req.is_req() {
            return String::new();
        }
        let kindv = self.get_value(req, "ReqKind");
        let kc: &str = if str_eq(kindv.as_str(), "1") {
            "O"
        } else if str_eq(kindv.as_str(), "4") {
            "C"
        } else if str_eq(kindv.as_str(), "2") || str_eq(kindv.as_str(), "3") {
            "M"
        } else {
            proof {
                assert(spec_kind_char(self.spec_resolve(*req, "ReqKind"@)) is None);
            }
            return String::new();
        };
        let mut brk = self.get_value(req, "BrkNo");
        let mut ivac = self.get_value(req, "IvacNo");
        if brk.as_str().is_empty() || ivac.as_str().is_empty() {
            match self.fallback_req(key) {
                Some(fr) => {
                    if brk.as_str().is_empty() {
                        brk = self.get_value(fr, "BrkNo");
                    }
                    if ivac.as_str().is_empty() {
                        ivac = self.get_value(fr, "IvacNo");
                    }
                },
                None => {},
            }
        }
        let uid = self.get_value(req, "FromUID");
        self.build_audit_line(
            date,
            brk.as_str(),
            ivac.as_str(),
            kc,
            uid.as_str(),
            time,
            req.get_digsgn(),
        )
    }

    /// Assembles one pipe-delimited audit line.
    fn build_audit_line(
        &self,
        date: &str,
        brk: &str,
        ivac: &str,
        kind: &str,
        uid: &str,
        time: &str,
        sgn: &str,
    ) -> (r: String)
        ensures
            r@ == spec_audit_line(date@, brk@, ivac@, kind@, uid@, time@, sgn@),
    {
        proof {
            reveal_strlit("0");
            assert("0"@ =~= seq!['0']);
            reveal_strlit(" ");
            assert(" "@ =~= seq![' ']);
        }
        let ivac_p = pad_left(ivac, "0", 7);
        let uid_p = pad_left(uid, " ", 15);
        let mut s = "|".to_owned();
        s.append(date);
        s.append("|");
        s.append(brk);
        s.append("|");
        s.append(ivac_p.as_str());
        s.append("|");
        s.append(kind);
        s.append("|");
        s.append(uid_p.as_str());
        s.append("|");
        s.append(time);
        s.append("|");
        s.append(sgn);
        s.append("\n");
        proof {
            assert(s@ =~= spec_audit_line(date@, brk@, ivac@, kind@, uid@, time@, sgn@));
        }
        s
    }

    /// The fallback request for a request key, through the correlation
    /// map.
    #[verifier::loop_isolation(false)]
    fn fallback_req<'a>(&'a self, key: &str) -> (r: Option<&'a Rec>)
        requires
            self.wf(),
        ensures
            match spec_fallback_req(*self, key@) {
                Some(fr) => r matches Some(x) && *x == fr,
                None => r is None,
            },
    {
        match self.req2ord.get(key) {
            Some(okey) => {
                match self.ords.get(okey.as_str()) {
                    Some(list) => {
                        let n = list.len();
                        let mut i: usize = 0;
                        while i < n
                            invariant
                                0 <= i <= n,
                                n == list@.len(),
                                spec_first_req_idx(list@, 0) == spec_first_req_idx(
                                    list@,
                                    i as int,
                                ),
                            decreases n - i,
                        {
                            if str_eq(list[i].get_field(0), "Req") {
                                proof {
                                    assert(list@[i as int].spec_is_req());
                                }
                                return self.reqs.get(list[i].get_field(1));
                            }
                            i = i + 1;
                        }
                        None
                    },
                    None => None,
                }
            },
            None => None,
        }
    }

    /// Sweeps every stored request and emits the audit lines of the
    /// qualifying ones (the all-requests sweep applies no session
    /// filter), each rendered with dates some run of the zone lookup
    /// could have produced.
    #[verifier::loop_isolation(false)]
    pub fn pki_output(&self) -> (r: String)
        requires
            self.wf(),
        ensures
            exists|dts: Seq<(Seq<char>, Seq<char>)>|
                #![trigger spec_pki_upto(*self, dts)]
                dts.len() == self.reqs.vals@.len() && (forall|j: int|
                    0 <= j < dts.len() ==> spec_dt_ok(self.reqs.vals@[j], #[trigger] dts[j]))
                    && r@ == spec_pki_upto(*self, dts),
    {
        let mut out = String::new();
        let ghost mut gdts: Seq<(Seq<char>, Seq<char>)> = Seq::empty();
        let n = self.reqs.vals.len();
        let mut i: usize = 0;
        while i < n
            invariant
                0 <= i <= n,
                n == self.reqs.vals@.len(),
                gdts.len() == i,
                forall|j: int|
                    0 <= j < gdts.len() ==> spec_dt_ok(self.reqs.vals@[j], #[trigger] gdts[j]),
                out@ == spec_pki_upto(*self, gdts),
            decreases n - i,
        {
            let req = &self.reqs.vals[i];
            let key = &self.reqs.keys[i];
            let date = req.get_date();
            let time = req.get_time();
            let line = self.audit_entry(key.as_str(), req, date.as_str(), time.as_str());
            out.append(line.as_str());
            proof {
                let dt = (date@, time@);
                assert(spec_dt_ok(self.reqs.vals@[i as int], dt)) by {
                    let off1 = choose|off: Option<int>|
                        spec_off_ok(off) && date@ == spec_date_out(self.reqs.vals@[i as int], off);
                    let off2 = choose|off: Option<int>|
                        spec_off_ok(off) && time@ == spec_time_out(self.reqs.vals@[i as int], off);
                    assert(spec_off_ok(off1) && spec_off_ok(off2) && dt.0 == spec_date_out(
                        self.reqs.vals@[i as int],
                        off1,
                    ) && dt.1 == spec_time_out(self.reqs.vals@[i as int], off2));
                }
                let prev = gdts;
                gdts = gdts.push(dt);
                assert(gdts.drop_last() =~= prev);
                assert(gdts.last() == dt);
            }
            i = i + 1;
        }
        out
    }
}

/// The audit line one chain position contributes in the query-result
/// sweep: only request records whose key resolves in the store, whose
/// session field is the gateway identifier, and whose kind is known
/// produce a line; empty fields fall back to the chain's first request.
pub open spec fn spec_audit_entry_b(
    s: OrderRec,
    fb: Option<Rec>,
    rec: Rec,
    dt: (Seq<char>, Seq<char>),
) -> Seq<char> {
    if !rec.spec_is_req() {
        Seq::empty()
    } else {
        match s.reqs.spec_get(rec.spec_field(1)) {
            Some(req) => {
                if !req.spec_is_req() {
                    Seq::empty()
                } else if s.spec_resolve(req, "SesName"@) != "SorAPI"@ {
                    Seq::empty()
                } else {
                    match spec_kind_char(s.spec_resolve(req, "ReqKind"@)) {
                        Some(kc) => {
                            let brk0 = s.spec_resolve(req, "BrkNo"@);
                            let ivac0 = s.spec_resolve(req, "IvacNo"@);
                            let brk = if brk0.len() == 0 && fb is Some {
                                s.spec_resolve(fb->0, "BrkNo"@)
                            } else {
                                brk0
                            };
                            let ivac = if ivac0.len() == 0 && fb is Some {
                                s.spec_resolve(fb->0, "IvacNo"@)
                            } else {
                                ivac0
                            };
                            spec_audit_line(
                                dt.0,
                                brk,
                                ivac,
                                kc,
                                s.spec_resolve(req, "FromUID"@),
                                dt.1,
                                req.digsgn@,
                            )
                        },
                        None => Seq::empty(),
                    }
                }
            },
            None => Seq::empty(),
        }
    }
}

/// The request record the chain's first request-kind entry resolves to
/// in the store: the backup field source for the whole chain.
pub open spec fn spec_chain_fallback(s: OrderRec, chain: Seq<Rec>) -> Option<Rec> {
    let j = spec_first_req_idx(chain, 0);
    if j >= 0 {
        s.reqs.spec_get(chain[j].spec_field(1))
    } else {
        None
    }
}

/// The audit lines of the first `dts.len()` positions of one chain.
pub open spec fn spec_pki_chain_upto(
    s: OrderRec,
    chain: Seq<Rec>,
    fb: Option<Rec>,
    dts: Seq<(Seq<char>, Seq<char>)>,
) -> Seq<char>
    decreases dts.len(),
{
    if dts.len() == 0 {
        Seq::empty()
    } else {
        let i = dts.len() - 1;
        spec_pki_chain_upto(s, chain, fb, dts.drop_last()) + spec_audit_entry_b(
            s,
            fb,
            chain[i],
            dts.last(),
        )
    }
}

/// The audit lines of the first `dtss.len()` chains of a query result.
pub open spec fn spec_pki_search_upto(
    s: OrderRec,
    chains: Seq<Seq<Rec>>,
    dtss: Seq<Seq<(Seq<char>, Seq<char>)>>,
) -> Seq<char>
    decreases dtss.len(),
{
    if dtss.len() == 0 {
        Seq::empty()
    } else {
        let i = dtss.len() - 1;
        spec_pki_search_upto(s, chains, dtss.drop_last()) + spec_pki_chain_upto(
            s,
            chains[i],
            spec_chain_fallback(s, chains[i]),
            dtss.last(),
        )
    }
}

/// The date/time pair at a chain position is one the zone lookup could
/// have produced for the stored request that position resolves to;
/// positions that resolve to no stored request carry no constraint.
pub open spec fn spec_dt_ok_b(s: OrderRec, rec: Rec, dt: (Seq<char>, Seq<char>)) -> bool {
    match s.reqs.spec_get(rec.spec_field(1)) {
        Some(req) => spec_dt_ok(req, dt),
        None => true,
    }
}

impl Parser {
    /// The audit lines of every stored request, in stored order.
    pub fn get_pki_output(&self) -> (r: String)
        requires
            self.wf(),
        ensures
            exists|dts: Seq<(Seq<char>, Seq<char>)>|
                #![trigger spec_pki_upto(self.ord_rec, dts)]
                dts.len() == self.ord_rec.reqs.vals@.len() && (forall|j: int|
                    0 <= j < dts.len() ==> spec_dt_ok(self.ord_rec.reqs.vals@[j], #[trigger] dts[j]))
                    && r@ == spec_pki_upto(self.ord_rec, dts),
    {
        self.ord_rec.pki_output()
    }

    /// The audit lines of the requests found inside a query result, chain
    /// by chain, with the session filter applied.
    #[verifier::loop_isolation(false)]
    pub fn get_pki_output_from_search(&self, list_of_list: &Vec<Vec<&Rec>>) -> (r: String)
        requires
            self.wf(),
        ensures
            exists|dtss: Seq<Seq<(Seq<char>, Seq<char>)>>|
                #![trigger spec_pki_search_upto(self.ord_rec, crate::store::chain_views(list_of_list@), dtss)]
                dtss.len() == list_of_list@.len() && (forall|ci: int|
                    0 <= ci < dtss.len() ==> (#[trigger] dtss[ci]).len() == derefs(
                        list_of_list@[ci]@,
                    ).len()) && (forall|ci: int, j: int|
                    0 <= ci < dtss.len() && 0 <= j < dtss[ci].len() ==> spec_dt_ok_b(
                        self.ord_rec,
                        derefs(list_of_list@[ci]@)[j],
                        #[trigger] dtss[ci][j],
                    )) && r@ == spec_pki_search_upto(
                    self.ord_rec,
                    crate::store::chain_views(list_of_list@),
                    dtss,
                ),
    {
        let ghost gchains = crate::store::chain_views(list_of_list@);
        let mut out = String::new();
        let ghost mut gdtss: Seq<Seq<(Seq<char>, Seq<char>)>> = Seq::empty();
        let nc = list_of_list.len();
        let mut ci: usize = 0;
        while ci < nc
            invariant
                0 <= ci <= nc,
                nc == list_of_list@.len(),
                gchains == crate::store::chain_views(list_of_list@),
                gchains.len() == nc,
                gdtss.len() == ci,
                forall|c2: int, j: int|
                    0 <= c2 < gdtss.len() && 0 <= j < gdtss[c2].len() ==> spec_dt_ok_b(
                        self.ord_rec,
                        derefs(list_of_list@[c2]@)[j],
                        #[trigger] gdtss[c2][j],
                    ),
                forall|c2: int| 0 <= c2 < gdtss.len() ==> (#[trigger] gdtss[c2]).len() == derefs(
                    list_of_list@[c2]@,
                ).len(),
                out@ == spec_pki_search_upto(self.ord_rec, gchains, gdtss),
            decreases nc - ci,
        {
            let chain = &list_of_list[ci];
            let ghost gchain = derefs(chain@);
            proof {
                assert(gchains[ci as int] == gchain);
            }
            let fb = self.chain_fallback(chain);
            let ghost gfb: Option<Rec> = match fb {
                Some(x) => Some(*x),
                None => None,
            };
            let mut cout = String::new();
            let ghost gout0 = out@;
            let ghost mut gdts: Seq<(Seq<char>, Seq<char>)> = Seq::empty();
            let n = chain.len();
            let mut i: usize = 0;
            while i < n
                invariant
                    0 <= i <= n,
                    n == chain@.len(),
                    gchain == derefs(chain@),
                    out@ == gout0 + cout@,
                    gdts.len() == i,
                    forall|j: int|
                        0 <= j < gdts.len() ==> spec_dt_ok_b(
                            self.ord_rec,
                            gchain[j],
                            #[trigger] gdts[j],
                        ),
                    cout@ == spec_pki_chain_upto(self.ord_rec, gchain, gfb, gdts),
                    gfb == spec_chain_fallback(self.ord_rec, gchain),
                decreases n - i,
            {
                let rec: &Rec = chain[i];
                proof {
                    assert(*chain@[i as int] == gchain[i as int]);
                }
                let mut dt_used: (String, String) = (String::new(), String::new());
                let mut line = String::new();
                let mut skipped = true;
                if str_eq(rec.get_field(0), "Req") {
                    match self.ord_rec.reqs.get(rec.get_field(1)) {
                        Some(req) => {
                            proof {
                                assert(self.ord_rec.reqs.spec_get(
                                    gchain[i as int].spec_field(1),
                                ) == Some(*req));
                            }
                            let date = req.get_date();
                            let time = req.get_time();
                            line = self.entry_b(fb, rec, req, date.as_str(), time.as_str());
                            dt_used = (date, time);
                            skipped = false;
                        },
                        None => {},
                    }
                } else {
                    proof {
                        assert(!gchain[i as int].spec_is_req());
                    }
                }
                out.append(line.as_str());
                cout.append(line.as_str());
                proof {
                    let dt = (dt_used.0@, dt_used.1@);
                    if skipped {
                        assert(dt.0 =~= Seq::<char>::empty());
                        assert(dt.1 =~= Seq::<char>::empty());
                        assert(line@ =~= Seq::<char>::empty());
                        assert(line@ == spec_audit_entry_b(
                            self.ord_rec,
                            gfb,
                            gchain[i as int],
                            dt,
                        ));
                    }
                    assert(spec_dt_ok_b(self.ord_rec, gchain[i as int], dt)) by {
                        match self.ord_rec.reqs.spec_get(gchain[i as int].spec_field(1)) {
                            Some(req) => {
                                if !skipped {
                                    let off1 = choose|off: Option<int>|
                                        spec_off_ok(off) && dt.0 == spec_date_out(req, off);
                                    let off2 = choose|off: Option<int>|
                                        spec_off_ok(off) && dt.1 == spec_time_out(req, off);
                                    assert(spec_off_ok(off1) && spec_off_ok(off2) && dt.0
                                        == spec_date_out(req, off1) && dt.1 == spec_time_out(
                                        req,
                                        off2,
                                    ));
                                } else {
                                    let gn: Option<int> = None;
                                    assert(spec_off_ok(gn) && dt.0 == spec_date_out(req, gn)
                                        && dt.1 == spec_time_out(req, gn));
                                }
                            },
                            None => {},
                        }
                    }
                    let prev = gdts;
                    gdts = gdts.push(dt);
                    assert(gdts.drop_last() =~= prev);
                }
                i = i + 1;
            }
            proof {
                let prev = gdtss;
                gdtss = gdtss.push(gdts);
                assert(gdtss.drop_last() =~= prev);
                assert(out@ =~= spec_pki_search_upto(self.ord_rec, gchains, prev)
                    + spec_pki_chain_upto(self.ord_rec, gchain, gfb, gdts));
                assert(spec_pki_search_upto(self.ord_rec, gchains, gdtss)
                    == spec_pki_search_upto(self.ord_rec, gchains, prev) + spec_pki_chain_upto(
                    self.ord_rec,
                    gchains[ci as int],
                    spec_chain_fallback(self.ord_rec, gchains[ci as int]),
                    gdts,
                ));
            }
            ci = ci + 1;
        }
        out
    }

    /// The backup request of one chain: its first request-kind entry,
    /// resolved in the store.
    #[verifier::loop_isolation(false)]
    fn chain_fallback<'a>(&'a self, chain: &Vec<&'a Rec>) -> (r: Option<&'a Rec>)
        requires
            self.wf(),
        ensures
            match spec_chain_fallback(self.ord_rec, derefs(chain@)) {
                Some(x) => r matches Some(y) && *y == x,
                None => r is None,
            },
    {
        let ghost gchain = derefs(chain@);
        let n = chain.len();
        let mut i: usize = 0;
        while i < n
            invariant
                0 <= i <= n,
                n == chain@.len(),
                spec_first_req_idx(gchain, 0) == spec_first_req_idx(gchain, i as int),
            decreases n - i,
        {
            let rec: &Rec = chain[i];
            proof {
                assert(*chain@[i as int] == gchain[i as int]);
            }
            if str_eq(rec.get_field(0), "Req") {
                proof {
                    assert(gchain[i as int].spec_is_req());
                }
                return self.ord_rec.reqs.get(rec.get_field(1));
            }
            i = i + 1;
        }
        None
    }

    /// One query-result request rendered as its audit line, with the
    /// session filter.
    fn entry_b(&self, fb: Option<&Rec>, chain_rec: &Rec, req: &Rec, date: &str, time: &str) -> (r:
        String)
        requires
            self.wf(),
            chain_rec.spec_is_req(),
            self.ord_rec.reqs.spec_get(chain_rec.spec_field(1)) == Some(*req),
        ensures
            r@ == spec_audit_entry_b(
                self.ord_rec,
                match fb {
                    Some(x) => Some(*x),
                    None => None,
                },
                *chain_rec,
                (date@, time@),
            ),
    {
        let ghost gfb: Option<Rec> = match fb {
            Some(x) => Some(*x),
            None => None,
        };
        if !req.is_req() {
            return String::new();
        }
        let ses = self.ord_rec.get_value(req, "SesName");
        if !str_eq(ses.as_str(), "SorAPI") {
            return String::new();
        }
        let kindv = self.ord_rec.get_value(req, "ReqKind");
        let kc: &str = if str_eq(kindv.as_str(), "1") {
            "O"
        } else if str_eq(kindv.as_str(), "4") {
            "C"
        } else if str_eq(kindv.as_str(), "2") || str_eq(kindv.as_str(), "3") {
            "M"
        } else {
            proof {
                assert(spec_kind_char(self.ord_rec.spec_resolve(*req, "ReqKind"@)) is None);
            }
            return String::new();
        };
        let mut brk = self.ord_rec.get_value(req, "BrkNo");
        let mut ivac = self.ord_rec.get_value(req, "IvacNo");
        if brk.as_str().is_empty() {
            if let Some(fr) = fb {
                brk = self.ord_rec.get_value(fr, "BrkNo");
            }
        }
        if ivac.as_str().is_empty() {
            if let Some(fr) = fb {
                ivac = self.ord_rec.get_value(fr, "IvacNo");
            }
        }
        let uid = self.ord_rec.get_value(req, "FromUID");
        self.ord_rec.build_audit_line(
            date,
            brk.as_str(),
            ivac.as_str(),
            kc,
            uid.as_str(),
            time,
            req.get_digsgn(),
        )
    }
}

} // verus!
