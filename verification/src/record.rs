use vstd::prelude::*;
use vstd::string::*;
use crate::strutil::{spec_split, spec_parse_int, split_char, parse_i64, str_eq};

verus! {

/// Token `i` of a field tuple, or the empty value when the tuple is shorter.
pub open spec fn spec_tok(toks: Seq<String>, i: int) -> Seq<char> {
    if 0 <= i < toks.len() {
        toks[i]@
    } else {
        Seq::empty()
    }
}

/// One classified event record: its field tuple, the source line it came
/// from, the annotation text gathered for it, whether any order transition
/// ever referenced it, and the extracted signature text.
pub struct Rec {
    pub toks: Vec<String>,
    pub line: String,
    pub log: String,
    pub linked: bool,
    pub digsgn: String,
}

impl Rec {
    pub open spec fn spec_field(&self, i: int) -> Seq<char> {
        spec_tok(self.toks@, i)
    }

    pub open spec fn spec_is_req(&self) -> bool {
        self.spec_field(0) == "Req"@
    }

    pub open spec fn spec_is_ord(&self) -> bool {
        self.spec_field(0) == "Ord"@
    }

    pub fn get_field(&self, idx: usize) -> (r: &str)
        ensures
            r@ == self.spec_field(idx as int),
    {
        if idx < self.toks.len() {
            self.toks[idx].as_str()
        } else {
            proof {
                reveal_strlit("");
                assert(""@ =~= Seq::<char>::empty());
            }
            ""
        }
    }

    pub fn is_req(&self) -> (r: bool)
        ensures
            r == self.spec_is_req(),
    {
        str_eq(self.get_field(0), "Req")
    }

    pub fn get_digsgn(&self) -> (r: &str)
        ensures
            r@ == self.digsgn@,
    {
        self.digsgn.as_str()
    }

    /// The whole-second part of the embedded timestamp (token 3, the text
    /// before the first dot), when the token exists, has a fraction part,
    /// and the seconds parse as an integer.
    pub open spec fn spec_ts_secs(&self) -> Option<int> {
        if self.toks@.len() > 3 {
            let parts = spec_split(self.spec_field(3), '.');
            if parts.len() > 1 {
                spec_parse_int(parts[0])
            } else {
                None
            }
        } else {
            None
        }
    }

    /// The fraction part of the embedded timestamp: the text between the
    /// first and second dot of token 3.
    pub open spec fn spec_ts_frac(&self) -> Seq<char> {
        spec_split(self.spec_field(3), '.')[1]
    }

    pub fn ts_secs(&self) -> (r: Option<i64>)
        ensures
            match self.spec_ts_secs() {
                Option::None => r is None,
                Option::Some(v) => if i64::MIN <= v <= i64::MAX {
                    r == Some(v as i64)
                } else {
                    r is None
                },
            },
    {
        if self.toks.len() > 3 {
            let parts = split_char(self.toks[3].as_str(), '.');
            proof {
                assert(parts.deep_view() == spec_split(self.spec_field(3), '.'));
                if parts@.len() > 1 {
                    assert(parts@[0]@ == parts.deep_view()[0]);
                }
            }
            if parts.len() > 1 {
                parse_i64(parts[0].as_str())
            } else {
                None
            }
        } else {
            None
        }
    }
}

/// The shape of one line handed up by the line source: end of input, a
/// primary data line, an annotation line (a colon-prefixed one, or a
/// continuation), or a blank.
pub enum LineType<T> {
    EndOfFile,
    Rec(T),
    Log(T),
    LogExt(T),
    Empty,
}

/// Classification of a decoded, trimmed line. `sz` is the byte count the
/// reader consumed for the line, including its terminator.
pub open spec fn spec_classify(s: Seq<char>, sz: int) -> LineType<Seq<char>> {
    if sz == 0 {
        LineType::EndOfFile
    } else if sz < 2 || s.len() < 2 {
        LineType::Empty
    } else if s[0] == ':' {
        LineType::Log(s)
    } else if sz > 3 && !(s.len() >= 3 && (s.subrange(0, 3) == "Req"@ || s.subrange(0, 3)
        == "Ord"@)) {
        LineType::LogExt(s)
    } else {
        LineType::Rec(s)
    }
}

pub fn classify_line(line: String, sz: usize) -> (r: LineType<String>)
    ensures
        match spec_classify(line@, sz as int) {
            LineType::EndOfFile => r is EndOfFile,
            LineType::Empty => r is Empty,
            LineType::Log(t) => r matches LineType::Log(x) && x@ == t,
            LineType::LogExt(t) => r matches LineType::LogExt(x) && x@ == t,
            LineType::Rec(t) => r matches LineType::Rec(x) && x@ == t,
        },
{
    if sz == 0 {
        return LineType::EndOfFile;
    }
    let n = line.as_str().unicode_len();
    if sz < 2 || n < 2 {
        return LineType::Empty;
    }
    if line.as_str().get_char(0) == ':' {
        return LineType::Log(line);
    }
    if sz > 3 {
        let is_data = if n >= 3 {
            let prefix = line.as_str().substring_char(0, 3);
            str_eq(prefix, "Req") || str_eq(prefix, "Ord")
        } else {
            false
        };
        if !is_data {
            return LineType::LogExt(line);
        }
    }
    LineType::Rec(line)
}

/// Groups classified lines into `(primary line, gathered annotation)`
/// pairs: annotation lines are appended to a buffer that is handed over
/// together with the primary line that preceded them, when the next
/// primary line (or the end of the input) arrives.
pub struct ReadAcc {
    pub rec_tmp: String,
    pub log_tmp: String,
}

impl ReadAcc {
    pub fn new() -> (r: ReadAcc)
        ensures
            r.rec_tmp@.len() == 0,
            r.log_tmp@.len() == 0,
    {
        ReadAcc { rec_tmp: String::new(), log_tmp: String::new() }
    }

    pub fn step(&mut self, lt: LineType<String>) -> (r: Option<(String, String)>)
        ensures
            match lt {
                LineType::Rec(l) => {
                    &&& final(self).rec_tmp@ == l@
                    &&& if old(self).rec_tmp@.len() > 0 {
                        &&& r matches Some(p) && p.0@ == old(self).rec_tmp@ && p.1@ == old(
                            self,
                        ).log_tmp@
                        &&& final(self).log_tmp@.len() == 0
                    } else {
                        &&& r is None
                        &&& final(self).log_tmp@ == old(self).log_tmp@
                    }
                },
                LineType::Log(l) => r is None && final(self).rec_tmp@ == old(self).rec_tmp@
                    && final(self).log_tmp@ == old(self).log_tmp@ + l@,
                LineType::LogExt(l) => r is None && final(self).rec_tmp@ == old(self).rec_tmp@
                    && final(self).log_tmp@ == old(self).log_tmp@ + l@,
                _ => r is None && *final(self) == *old(self),
            },
    {
        match lt {
            LineType::Rec(l) => {
                let mut out: Option<(String, String)> = None;
                if !self.rec_tmp.as_str().is_empty() {
                    out = Some((self.rec_tmp.clone(), self.log_tmp.clone()));
                    self.log_tmp = String::new();
                }
                self.rec_tmp = l;
                out
            },
            LineType::Log(l) => {
                self.log_tmp.append(l.as_str());
                None
            },
            LineType::LogExt(l) => {
                self.log_tmp.append(l.as_str());
                None
            },
            _ => None,
        }
    }

    /// The pair still buffered when the input ends.
    pub fn finish(self) -> (r: (String, String))
        ensures
            r.0@ == self.rec_tmp@,
            r.1@ == self.log_tmp@,
    {
        (self.rec_tmp, self.log_tmp)
    }
}

} // verus!
