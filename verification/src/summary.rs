use vstd::prelude::*;
use vstd::string::*;
use crate::record::Rec;
use crate::store::{OrderRec, derefs};
use crate::strutil::{str_eq, parse_i64, spec_parse_int};
use crate::timefmt::{spec_off_ok, spec_stamp_out};

verus! {

pub open spec fn spec_describe_status(st: int) -> Seq<char> {
    if st == 6 {
        "sending"@
    } else if st == 7 {
        "sent"@
    } else if st == 90 {
        "accepted-success"@
    } else if st == 99 {
        "failed"@
    } else if st == 101 {
        "exchange-accepted"@
    } else if st == 110 {
        "partial-fill"@
    } else if st == 111 {
        "full-fill"@
    } else if st == 120 {
        "exchange-cancelled"@
    } else {
        "unknown"@
    }
}

/// Maps a numeric order-state code to its label; any code outside the
/// known set reads as "unknown".
pub fn describe_status(st: i64) -> (r: &'static str)
    ensures
        r@ == spec_describe_status(st as int),
{
    if st == 6 {
        "sending"
    } else if st == 7 {
        "sent"
    } else if st == 90 {
        "accepted-success"
    } else if st == 99 {
        "failed"
    } else if st == 101 {
        "exchange-accepted"
    } else if st == 110 {
        "partial-fill"
    } else if st == 111 {
        "full-fill"
    } else if st == 120 {
        "exchange-cancelled"
    } else {
        "unknown"
    }
}

pub open spec fn spec_req_kind_label(k: Seq<char>) -> Seq<char> {
    if k == "1"@ {
        "new-order"@
    } else if k == "2"@ {
        "modify-qty"@
    } else if k == "3"@ {
        "modify-price"@
    } else if k == "4"@ {
        "cancel"@
    } else if k == "10"@ {
        "fill"@
    } else {
        ""@
    }
}

fn req_kind_label(k: &str) -> (r: &'static str)
    ensures
        r@ == spec_req_kind_label(k@),
{
    if str_eq(k, "1") {
        "new-order"
    } else if str_eq(k, "2") {
        "modify-qty"
    } else if str_eq(k, "3") {
        "modify-price"
    } else if str_eq(k, "4") {
        "cancel"
    } else if str_eq(k, "10") {
        "fill"
    } else {
        ""
    }
}

/// The compact status record a chain reduces to.
pub struct OrdInfo {
    pub rid: String,
    pub ordno: String,
    pub status: String,
}

impl OrdInfo {
    pub fn new() -> (r: OrdInfo)
        ensures
            r.rid@.len() == 0,
            r.ordno@.len() == 0,
            r.status@.len() == 0,
    {
        OrdInfo { rid: String::new(), ordno: String::new(), status: String::new() }
    }

    pub open spec fn spec_text(&self) -> Seq<char> {
        "\n===== rid:"@ + self.rid@ + " ordno:"@ + self.ordno@ + " status:"@ + self.status@
            + " ====="@
    }

    pub fn to_string(&self) -> (r: String)
        ensures
            r@ == self.spec_text(),
    {
        let mut s = "\n===== rid:".to_owned();
        s.append(self.rid.as_str());
        s.append(" ordno:");
        s.append(self.ordno.as_str());
        s.append(" status:");
        s.append(self.status.as_str());
        s.append(" =====");
        proof {
            assert(s@ =~= self.spec_text());
        }
        s
    }
}

/// The running state of the summary fold: the serial of the latest
/// new-order request, the latest transition's order number, and the
/// highest order state seen with the request step captured when it rose.
pub struct SumSt {
    pub rid: Seq<char>,
    pub ordno: Seq<char>,
    pub ordst: int,
    pub reqst: int,
}

impl OrderRec {
    /// The summary the first `list.len()` records of a chain fold to.
    /// The order state and request step move only when a transition's
    /// `OrderSt` strictly exceeds the running maximum; equal values never
    /// move them.
    pub open spec fn spec_summary(self, list: Seq<Rec>) -> SumSt
        decreases list.len(),
    {
        if list.len() == 0 {
            SumSt { rid: Seq::empty(), ordno: Seq::empty(), ordst: 0, reqst: 0 }
        } else {
            let p = self.spec_summary(list.drop_last());
            let rec = list.last();
            let p1 = if rec.spec_is_req() && rec.spec_field(4) == "1"@ {
                SumSt { rid: self.spec_resolve(rec, "SorRID"@), ..p }
            } else {
                p
            };
            if rec.spec_is_ord() {
                let p2 = SumSt { ordno: self.spec_resolve(rec, "OrdNo"@), ..p1 };
                match spec_parse_int(self.spec_resolve(rec, "OrderSt"@)) {
                    Some(st) => if i64::MIN <= st <= i64::MAX && st > p2.ordst {
                        match spec_parse_int(self.spec_resolve(rec, "ReqStep"@)) {
                            Some(rst) => if i64::MIN <= rst <= i64::MAX {
                                SumSt { ordst: st, reqst: rst, ..p2 }
                            } else {
                                SumSt { ordst: st, ..p2 }
                            },
                            None => SumSt { ordst: st, ..p2 },
                        }
                    } else {
                        p2
                    },
                    None => p2,
                }
            } else {
                p1
            }
        }
    }

    /// Reduces a chain to its status record: request serial, order
    /// number, and `reqStep/orderState` labels of the peak order state.
    #[verifier::loop_isolation(false)]
    pub fn get_ord_summary(&self, list: &Vec<&Rec>) -> (r: OrdInfo)
        requires
            self.wf(),
        ensures
            ({
                let s = self.spec_summary(derefs(list@));
                r.rid@ == s.rid && r.ordno@ == s.ordno && r.status@ == spec_describe_status(
                    s.reqst,
                ) + "/"@ + spec_describe_status(s.ordst)
            }),
    {
        let ghost gl = derefs(list@);
        let mut rid = String::new();
        let mut ordno = String::new();
        let mut ordst: i64 = 0;
        let mut reqst: i64 = 0;
        let n = list.len();
        let mut i: usize = 0;
        proof {
            assert(gl.take(0) =~= Seq::<Rec>::empty());
        }
        while i < n
            invariant
                0 <= i <= n,
                n == list@.len(),
                gl == derefs(list@),
                ({
                    let s = self.spec_summary(gl.take(i as int));
                    rid@ == s.rid && ordno@ == s.ordno && ordst == s.ordst && reqst == s.reqst
                }),
            decreases n - i,
        {
            proof {
                assert(gl.take(i + 1).drop_last() =~= gl.take(i as int));
                assert(gl.take(i + 1).last() == gl[i as int]);
                assert(*list@[i as int] == gl[i as int]);
            }
            let rec: &Rec = list[i];
            if str_eq(rec.get_field(0), "Req") && str_eq(rec.get_field(4), "1") {
                rid = self.get_value(rec, "SorRID");
            }
            if str_eq(rec.get_field(0), "Ord") {
                ordno = self.get_value(rec, "OrdNo");
                let stv = self.get_value(rec, "OrderSt");
                match parse_i64(stv.as_str()) {
                    Some(st) => {
                        if st > ordst {
                            ordst = st;
                            let rv = self.get_value(rec, "ReqStep");
                            match parse_i64(rv.as_str()) {
                                Some(rst) => {
                                    reqst = rst;
                                },
                                None => {},
                            }
                        }
                    },
                    None => {},
                }
            }
            i = i + 1;
        }
        proof {
            assert(gl.take(n as int) =~= gl);
        }
        let mut status = describe_status(reqst).to_owned();
        status.append("/");
        let os = describe_status(ordst);
        status.append(os);
        proof {
            assert(status@ =~= spec_describe_status(reqst as int) + "/"@ + spec_describe_status(
                ordst as int,
            ));
        }
        OrdInfo { rid, ordno, status }
    }

    /// The whole chain rendered as text: the summary banner, then each
    /// record's stamp, source line and annotation.
    #[verifier::loop_isolation(false)]
    pub fn ord_list_to_string(&self, list: &Vec<&Rec>) -> (r: String)
        requires
            self.wf(),
        ensures
            exists|offs: Seq<Option<int>>|
                #![trigger spec_chain_text_upto(derefs(list@), offs)]
                offs.len() == list@.len() && (forall|j: int|
                    0 <= j < offs.len() ==> spec_off_ok(#[trigger] offs[j])) && r@ == ({
                    let s = self.spec_summary(derefs(list@));
                    "\n===== rid:"@ + s.rid + " ordno:"@ + s.ordno + " status:"@
                        + spec_describe_status(s.reqst) + "/"@ + spec_describe_status(s.ordst)
                        + " =====\n"@ + spec_chain_text_upto(derefs(list@), offs)
                }),
    {
        let ghost gl = derefs(list@);
        let info = self.get_ord_summary(list);
        let mut out = info.to_string();
        out.append("\n");
        let ghost head = out@;
        let ghost mut goffs: Seq<Option<int>> = Seq::empty();
        let n = list.len();
        let mut i: usize = 0;
        proof {
            assert(out@ =~= head + spec_chain_text_upto(gl, goffs));
        }
        while i < n
            invariant
                0 <= i <= n,
                n == list@.len(),
                gl == derefs(list@),
                goffs.len() == i,
                forall|j: int| 0 <= j < goffs.len() ==> spec_off_ok(#[trigger] goffs[j]),
                out@ == head + spec_chain_text_upto(gl, goffs),
            decreases n - i,
        {
            proof {
                assert(*list@[i as int] == gl[i as int]);
            }
            let rec: &Rec = list[i];
            let t = rec.to_string();
            out.append(t.as_str());
            proof {
                let off = choose|off: Option<int>|
                    spec_off_ok(off) && t@ == spec_rec_text(
                        gl[i as int],
                        spec_stamp_out(gl[i as int], off),
                    );
                let prev = goffs;
                goffs = goffs.push(off);
                assert(goffs.drop_last() =~= prev);
                assert(out@ =~= head + spec_chain_text_upto(gl, goffs));
            }
            i = i + 1;
        }
        proof {
            let s = self.spec_summary(gl);
            reveal_strlit(" =====");
            reveal_strlit("\n");
            reveal_strlit(" =====\n");
            assert(" ====="@ + "\n"@ =~= " =====\n"@);
            assert(head =~= "\n===== rid:"@ + s.rid + " ordno:"@ + s.ordno + " status:"@
                + spec_describe_status(s.reqst) + "/"@ + spec_describe_status(s.ordst)
                + " =====\n"@);
            assert(out@ =~= head + spec_chain_text_upto(gl, goffs));
        }
        out
    }
}

/// The text one record renders to, given the stamp its timestamp
/// produced: a headline for tuples long enough to classify, then the
/// source line and the annotation.
pub open spec fn spec_rec_text(rec: Rec, ts: Seq<char>) -> Seq<char> {
    let head = if rec.toks@.len() > 5 {
        if rec.spec_is_req() {
            ts + " ("@ + spec_req_kind_label(rec.spec_field(4)) + ")\n"@
        } else {
            match spec_parse_int(rec.spec_field(6)) {
                Some(v) => if i64::MIN <= v <= i64::MAX {
                    ts + " =>"@ + spec_describe_status(v) + "\n"@
                } else {
                    ts + "\n"@
                },
                None => ts + "\n"@,
            }
        }
    } else {
        Seq::empty()
    };
    head + rec.line@ + "\n"@ + rec.log@ + "\n"@
}

/// The first `offs.len()` records of a chain rendered and concatenated,
/// each under its own zone-lookup outcome.
pub open spec fn spec_chain_text_upto(list: Seq<Rec>, offs: Seq<Option<int>>) -> Seq<char>
    decreases offs.len(),
{
    if offs.len() == 0 {
        Seq::empty()
    } else {
        let i = offs.len() - 1;
        spec_chain_text_upto(list, offs.drop_last()) + spec_rec_text(
            list[i],
            spec_stamp_out(list[i], offs.last()),
        )
    }
}

impl Rec {
    /// The record rendered as text under whatever the zone lookup gave.
    pub fn to_string(&self) -> (r: String)
        ensures
            exists|off: Option<int>|
                spec_off_ok(off) && r@ == spec_rec_text(*self, spec_stamp_out(*self, off)),
    {
        let ts = self.get_timestamp();
        let ghost goff = choose|off: Option<int>|
            spec_off_ok(off) && ts@ == spec_stamp_out(*self, off);
        let mut s = String::new();
        if self.toks.len() > 5 {
            if self.is_req() {
                s.append(ts.as_str());
                s.append(" (");
                let lbl = req_kind_label(self.get_field(4));
                s.append(lbl);
                s.append(")\n");
            } else {
                match parse_i64(self.get_field(6)) {
                    Some(v) => {
                        s.append(ts.as_str());
                        s.append(" =>");
                        let lbl = describe_status(v);
                        s.append(lbl);
                        s.append("\n");
                    },
                    None => {
                        s.append(ts.as_str());
                        s.append("\n");
                    },
                }
            }
        }
        s.append(self.line.as_str());
        s.append("\n");
        s.append(self.log.as_str());
        s.append("\n");
        proof {
            assert(spec_off_ok(goff) && s@ =~= spec_rec_text(*self, spec_stamp_out(*self, goff)));
        }
        s
    }
}

} // verus!
