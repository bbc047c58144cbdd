//! Lease records: the parsed form of one lease-store line, the per-field
//! parse errors, and the line and file parsers.
use vstd::prelude::*;
use crate::numbers::{
    dec_i64, dec_u32, dec_u64, dec_val, ipv4_ok, ipv4_val, is_dec, lemma_dec_val_nonneg,
    parse_i64_str, parse_ipv4_str, parse_u32_str, parse_u64_str,
};
use crate::text::{lemma_split_on_len, spec_lines, split_lines, split_on, split_str};

verus! {

/// Earliest expiry second representable by the datetime library
/// (chrono's `DateTime::<Utc>::MIN_UTC`, midnight of January 1, -262143).
pub const MIN_LEASE_TS: i64 = -8334601228800;

/// Latest expiry second representable by the datetime library
/// (chrono's `DateTime::<Utc>::MAX_UTC`, last second of December 31, 262142).
pub const MAX_LEASE_TS: i64 = 8210266876799;

/// Whether `t` seconds since the epoch denotes a representable instant.
pub open spec fn ts_in_range(t: int) -> bool {
    MIN_LEASE_TS <= t <= MAX_LEASE_TS
}

/// Relies on chrono's `DateTime::<Utc>::from_timestamp(secs, 0)`: it returns
/// `Some` exactly when the resulting date lies between `NaiveDate::MIN` and
/// `NaiveDate::MAX`, that is when `secs` is between the timestamps of
/// `DateTime::<Utc>::MIN_UTC` and `MAX_UTC`, the two constants above.
#[verifier::external_body]
fn timestamp_representable(secs: i64) -> (r: bool)
    ensures
        r == ts_in_range(secs as int),
{
    chrono::DateTime::<chrono::Utc>::from_timestamp(secs, 0).is_some()
}

/// One lease-store record, fully validated at construction.
///
/// `ip_addr` holds the IPv4 address as its 32-bit numeric value (most
/// significant octet first); `lifetime` is whole seconds; `expires` is
/// seconds since the Unix epoch, UTC.
#[derive(Debug, Clone)]
pub struct Lease {
    pub ip_addr: u32,
    pub hw_addr: String,
    pub client_id: Option<String>,
    pub lifetime: u64,
    pub expires: i64,
    pub subnet_id: u32,
    pub fqdn_fwd: u32,
    pub fqdn_rev: u32,
    pub hostname: Option<String>,
    pub state: u32,
    pub user_context: Option<String>,
    pub pool_id: u32,
}

/// The mathematical shape of a lease: text fields as character sequences.
pub struct LeaseV {
    pub ip_addr: u32,
    pub hw_addr: Seq<char>,
    pub client_id: Option<Seq<char>>,
    pub lifetime: u64,
    pub expires: i64,
    pub subnet_id: u32,
    pub fqdn_fwd: u32,
    pub fqdn_rev: u32,
    pub hostname: Option<Seq<char>>,
    pub state: u32,
    pub user_context: Option<Seq<char>>,
    pub pool_id: u32,
}

impl View for Lease {
    type V = LeaseV;

    open spec fn view(&self) -> LeaseV {
        LeaseV {
            ip_addr: self.ip_addr,
            hw_addr: self.hw_addr@,
            client_id: self.client_id.deep_view(),
            lifetime: self.lifetime,
            expires: self.expires,
            subnet_id: self.subnet_id,
            fqdn_fwd: self.fqdn_fwd,
            fqdn_rev: self.fqdn_rev,
            hostname: self.hostname.deep_view(),
            state: self.state,
            user_context: self.user_context.deep_view(),
            pool_id: self.pool_id,
        }
    }
}

impl DeepView for Lease {
    type V = LeaseV;

    open spec fn deep_view(&self) -> LeaseV {
        self.view()
    }
}

/// Why one record line was rejected; each variant carries the offending
/// field text (or, for `NotEnoughFields`, the number of fields present).
#[derive(Debug, Clone)]
pub enum ParseError {
    NotEnoughFields(usize),
    IpAddr(String),
    Duration(String),
    Time(String),
    SubnetId(String),
    FqdnFwd(String),
    FqdnRev(String),
    State(String),
    PoolId(String),
}

/// The mathematical shape of a record error.
pub enum ParseErrorV {
    NotEnoughFields(int),
    IpAddr(Seq<char>),
    Duration(Seq<char>),
    Time(Seq<char>),
    SubnetId(Seq<char>),
    FqdnFwd(Seq<char>),
    FqdnRev(Seq<char>),
    State(Seq<char>),
    PoolId(Seq<char>),
}

impl View for ParseError {
    type V = ParseErrorV;

    open spec fn view(&self) -> ParseErrorV {
        match self {
            ParseError::NotEnoughFields(n) => ParseErrorV::NotEnoughFields(*n as int),
            ParseError::IpAddr(s) => ParseErrorV::IpAddr(s@),
            ParseError::Duration(s) => ParseErrorV::Duration(s@),
            ParseError::Time(s) => ParseErrorV::Time(s@),
            ParseError::SubnetId(s) => ParseErrorV::SubnetId(s@),
            ParseError::FqdnFwd(s) => ParseErrorV::FqdnFwd(s@),
            ParseError::FqdnRev(s) => ParseErrorV::FqdnRev(s@),
            ParseError::State(s) => ParseErrorV::State(s@),
            ParseError::PoolId(s) => ParseErrorV::PoolId(s@),
        }
    }
}

/// The value of an optional text field: the empty string denotes absence.
pub open spec fn opt_text(s: Seq<char>) -> Option<Seq<char>> {
    if s.len() == 0 {
        None
    } else {
        Some(s)
    }
}

pub fn empty_str_to_none(s: &str) -> (r: Option<String>)
    ensures
        r.deep_view() == opt_text(s@),
{
    if s.unicode_len() == 0 {
        None
    } else {
        Some(s.to_owned())
    }
}

pub fn parse_duration(s: &str) -> (r: Result<u64, ParseError>)
    ensures
        match r {
            Ok(v) => dec_u64(s@) == Some(v),
            Err(e) => dec_u64(s@) is None && e@ == ParseErrorV::Duration(s@),
        },
{
    match parse_u64_str(s) {
        Some(v) => Ok(v),
        None => Err(ParseError::Duration(s.to_owned())),
    }
}

/// The expiry denoted by `s`: a signed second count that chrono can represent.
pub open spec fn spec_parse_ts(s: Seq<char>) -> Option<i64> {
    match dec_i64(s) {
        Some(t) => if ts_in_range(t as int) {
            Some(t)
        } else {
            None
        },
        None => None,
    }
}

pub fn parse_datetime(s: &str) -> (r: Result<i64, ParseError>)
    ensures
        match r {
            Ok(v) => spec_parse_ts(s@) == Some(v),
            Err(e) => spec_parse_ts(s@) is None && e@ == ParseErrorV::Time(s@),
        },
{
    match parse_i64_str(s) {
        Some(t) => {
            if timestamp_representable(t) {
                Ok(t)
            } else {
                Err(ParseError::Time(s.to_owned()))
            }
        },
        None => Err(ParseError::Time(s.to_owned())),
    }
}

pub fn parse_subnet_id(s: &str) -> (r: Result<u32, ParseError>)
    ensures
        match r {
            Ok(v) => dec_u32(s@) == Some(v),
            Err(e) => dec_u32(s@) is None && e@ == ParseErrorV::SubnetId(s@),
        },
{
    match parse_u32_str(s) {
        Some(v) => Ok(v),
        None => Err(ParseError::SubnetId(s.to_owned())),
    }
}

pub fn parse_fqdn_fwd(s: &str) -> (r: Result<u32, ParseError>)
    ensures
        match r {
            Ok(v) => dec_u32(s@) == Some(v),
            Err(e) => dec_u32(s@) is None && e@ == ParseErrorV::FqdnFwd(s@),
        },
{
    match parse_u32_str(s) {
        Some(v) => Ok(v),
        None => Err(ParseError::FqdnFwd(s.to_owned())),
    }
}

pub fn parse_fqdn_rev(s: &str) -> (r: Result<u32, ParseError>)
    ensures
        match r {
            Ok(v) => dec_u32(s@) == Some(v),
            Err(e) => dec_u32(s@) is None && e@ == ParseErrorV::FqdnRev(s@),
        },
{
    match parse_u32_str(s) {
        Some(v) => Ok(v),
        None => Err(ParseError::FqdnRev(s.to_owned())),
    }
}

pub fn parse_state(s: &str) -> (r: Result<u32, ParseError>)
    ensures
        match r {
            Ok(v) => dec_u32(s@) == Some(v),
            Err(e) => dec_u32(s@) is None && e@ == ParseErrorV::State(s@),
        },
{
    match parse_u32_str(s) {
        Some(v) => Ok(v),
        None => Err(ParseError::State(s.to_owned())),
    }
}

pub fn parse_pool_id(s: &str) -> (r: Result<u32, ParseError>)
    ensures
        match r {
            Ok(v) => dec_u32(s@) == Some(v),
            Err(e) => dec_u32(s@) is None && e@ == ParseErrorV::PoolId(s@),
        },
{
    match parse_u32_str(s) {
        Some(v) => Ok(v),
        None => Err(ParseError::PoolId(s.to_owned())),
    }
}

/// The signed value denoted by a decimal string with an optional minus sign.
pub open spec fn dec_i64_val(s: Seq<char>) -> int {
    if s.len() > 0 && s[0] == '-' {
        -dec_val(s.drop_first())
    } else {
        dec_val(s)
    }
}

/// The record denoted by one line of exactly twelve comma-separated fields,
/// or the first error met when the fields are consumed in order: a field that
/// fails its validator rejects the line with that field's error; running out
/// of fields first rejects it with `NotEnoughFields`, carrying how many
/// fields the line holds.
pub open spec fn spec_parse_line(s: Seq<char>) -> Result<LeaseV, ParseErrorV> {
    let fs = split_on(s, ',');
    if !ipv4_ok(fs[0]) {
        Err(ParseErrorV::IpAddr(fs[0]))
    } else if fs.len() < 4 {
        Err(ParseErrorV::NotEnoughFields(fs.len() as int))
    } else if dec_u64(fs[3]) is None {
        Err(ParseErrorV::Duration(fs[3]))
    } else if fs.len() < 5 {
        Err(ParseErrorV::NotEnoughFields(fs.len() as int))
    } else if spec_parse_ts(fs[4]) is None {
        Err(ParseErrorV::Time(fs[4]))
    } else if fs.len() < 6 {
        Err(ParseErrorV::NotEnoughFields(fs.len() as int))
    } else if dec_u32(fs[5]) is None {
        Err(ParseErrorV::SubnetId(fs[5]))
    } else if fs.len() < 7 {
        Err(ParseErrorV::NotEnoughFields(fs.len() as int))
    } else if dec_u32(fs[6]) is None {
        Err(ParseErrorV::FqdnFwd(fs[6]))
    } else if fs.len() < 8 {
        Err(ParseErrorV::NotEnoughFields(fs.len() as int))
    } else if dec_u32(fs[7]) is None {
        Err(ParseErrorV::FqdnRev(fs[7]))
    } else if fs.len() < 10 {
        Err(ParseErrorV::NotEnoughFields(fs.len() as int))
    } else if dec_u32(fs[9]) is None {
        Err(ParseErrorV::State(fs[9]))
    } else if fs.len() < 12 {
        Err(ParseErrorV::NotEnoughFields(fs.len() as int))
    } else if dec_u32(fs[11]) is None {
        Err(ParseErrorV::PoolId(fs[11]))
    } else {
        Ok(
            LeaseV {
                ip_addr: ipv4_val(fs[0]) as u32,
                hw_addr: fs[1],
                client_id: opt_text(fs[2]),
                lifetime: dec_val(fs[3]) as u64,
                expires: dec_i64_val(fs[4]) as i64,
                subnet_id: dec_val(fs[5]) as u32,
                fqdn_fwd: dec_val(fs[6]) as u32,
                fqdn_rev: dec_val(fs[7]) as u32,
                hostname: opt_text(fs[8]),
                state: dec_val(fs[9]) as u32,
                user_context: opt_text(fs[10]),
                pool_id: dec_val(fs[11]) as u32,
            },
        )
    }
}

/// Parses one lease-store line into a record, consuming its twelve
/// comma-separated fields in order.
pub fn parse_line(line: &str) -> (r: Result<Lease, ParseError>)
    ensures
        match spec_parse_line(line@) {
            Ok(v) => r matches Ok(l) && l@ == v,
            Err(e) => r matches Err(pe) && pe@ == e,
        },
{
    let fields = split_str(line, ',');
    proof {
        lemma_split_on_len(line@, ',');
    }
    let ip_addr = match parse_ipv4_str(fields[0].as_str()) {
        Some(v) => v,
        None => {
            return Err(ParseError::IpAddr(fields[0].clone()));
        },
    };
    if fields.len() < 4 {
        return Err(ParseError::NotEnoughFields(fields.len()));
    }
    let hw_addr = fields[1].clone();
    let client_id = empty_str_to_none(fields[2].as_str());
    let lifetime = match parse_duration(fields[3].as_str()) {
        Ok(v) => v,
        Err(e) => {
            return Err(e);
        },
    };
    if fields.len() < 5 {
        return Err(ParseError::NotEnoughFields(fields.len()));
    }
    let expires = match parse_datetime(fields[4].as_str()) {
        Ok(v) => v,
        Err(e) => {
            return Err(e);
        },
    };
    if fields.len() < 6 {
        return Err(ParseError::NotEnoughFields(fields.len()));
    }
    let subnet_id = match parse_subnet_id(fields[5].as_str()) {
        Ok(v) => v,
        Err(e) => {
            return Err(e);
        },
    };
    if fields.len() < 7 {
        return Err(ParseError::NotEnoughFields(fields.len()));
    }
    let fqdn_fwd = match parse_fqdn_fwd(fields[6].as_str()) {
        Ok(v) => v,
        Err(e) => {
            return Err(e);
        },
    };
    if fields.len() < 8 {
        return Err(ParseError::NotEnoughFields(fields.len()));
    }
    let fqdn_rev = match parse_fqdn_rev(fields[7].as_str()) {
        Ok(v) => v,
        Err(e) => {
            return Err(e);
        },
    };
    if fields.len() < 10 {
        return Err(ParseError::NotEnoughFields(fields.len()));
    }
    let hostname = empty_str_to_none(fields[8].as_str());
    let state = match parse_state(fields[9].as_str()) {
        Ok(v) => v,
        Err(e) => {
            return Err(e);
        },
    };
    if fields.len() < 12 {
        return Err(ParseError::NotEnoughFields(fields.len()));
    }
    let user_context = empty_str_to_none(fields[10].as_str());
    let pool_id = match parse_pool_id(fields[11].as_str()) {
        Ok(v) => v,
        Err(e) => {
            return Err(e);
        },
    };
    proof {
        if is_dec(split_on(line@, ',')[4]) {
            lemma_dec_val_nonneg(split_on(line@, ',')[4]);
        }
    }
    Ok(
        Lease {
            ip_addr,
            hw_addr,
            client_id,
            lifetime,
            expires,
            subnet_id,
            fqdn_fwd,
            fqdn_rev,
            hostname,
            state,
            user_context,
            pool_id,
        },
    )
}


/// Why a whole lease-store file was rejected: the file could not be read
/// (`FileOpen` carries the I/O failure's description, supplied by the
/// caller that reads the file), it held no data line, or a data line
/// failed to parse (`line` is the 0-indexed data-line number, not counting
/// the header).
#[derive(Debug, Clone)]
pub enum FileParseError {
    FileOpen(String),
    Empty,
    ParseLease { source: ParseError, line: usize },
}

/// The mathematical shape of a file error.
pub enum FileParseErrorV {
    FileOpen(Seq<char>),
    Empty,
    ParseLease { source: ParseErrorV, line: int },
}

impl View for FileParseError {
    type V = FileParseErrorV;

    open spec fn view(&self) -> FileParseErrorV {
        match self {
            FileParseError::FileOpen(s) => FileParseErrorV::FileOpen(s@),
            FileParseError::Empty => FileParseErrorV::Empty,
            FileParseError::ParseLease { source, line } => FileParseErrorV::ParseLease {
                source: source.view(),
                line: *line as int,
            },
        }
    }
}

/// The records denoted by a sequence of data lines, or the position and
/// error of the first line that fails to parse.
pub open spec fn spec_parse_lines(ls: Seq<Seq<char>>) -> Result<Seq<LeaseV>, (int, ParseErrorV)>
    decreases ls.len(),
{
    if ls.len() == 0 {
        Ok(Seq::empty())
    } else {
        match spec_parse_line(ls[0]) {
            Err(e) => Err((0, e)),
            Ok(l) => match spec_parse_lines(ls.drop_first()) {
                Err(p) => Err((p.0 + 1, p.1)),
                Ok(rest) => Ok(seq![l] + rest),
            },
        }
    }
}

/// The records denoted by a whole file's text: the first line is a header
/// and is discarded; a file with no data line (empty, or header only) is
/// rejected as `Empty`; otherwise every data line must parse, and the first
/// failure rejects the file with that line's number and error.
pub open spec fn spec_parse_file(s: Seq<char>) -> Result<Seq<LeaseV>, FileParseErrorV> {
    let ls = spec_lines(s);
    if ls.len() <= 1 {
        Err(FileParseErrorV::Empty)
    } else {
        match spec_parse_lines(ls.drop_first()) {
            Ok(leases) => Ok(leases),
            Err(p) => Err(FileParseErrorV::ParseLease { source: p.1, line: p.0 }),
        }
    }
}

/// Parses the text of one lease-store file into its records.
///
/// The caller reads the file; this function owns everything after that:
/// header handling, record parsing, and error attribution.
pub fn parse_file(contents: &str) -> (r: Result<Vec<Lease>, FileParseError>)
    ensures
        match spec_parse_file(contents@) {
            Ok(v) => r matches Ok(leases) && leases.deep_view() == v,
            Err(e) => r matches Err(fe) && fe@ == e,
        },
{
    let lines = split_lines(contents);
    if lines.len() <= 1 {
        return Err(FileParseError::Empty);
    }
    let ghost data = spec_lines(contents@).drop_first();
    let mut leases: Vec<Lease> = Vec::new();
    let mut i: usize = 1;
    proof {
        assert(data.skip(0) =~= data);
        match spec_parse_lines(data) {
            Ok(rest) => {
                assert(leases.deep_view() + rest =~= rest);
            },
            Err(_) => {},
        }
    }
    while i < lines.len()
        invariant
            1 <= i <= lines.len(),
            lines.deep_view() == spec_lines(contents@),
            data == spec_lines(contents@).drop_first(),
            lines@.len() == spec_lines(contents@).len(),
            match spec_parse_lines(data.skip(i - 1)) {
                Ok(rest) => spec_parse_lines(data) == Ok::<_, (int, ParseErrorV)>(
                    leases.deep_view() + rest,
                ),
                Err(p) => spec_parse_lines(data) == Err::<Seq<LeaseV>, _>(
                    (p.0 + i - 1, p.1),
                ),
            },
        decreases lines@.len() - i,
    {
        proof {
            assert(data.skip(i - 1).len() > 0);
            assert(data.skip(i - 1)[0] == lines.deep_view()[i as int]);
            assert(data.skip(i - 1).drop_first() =~= data.skip(i as int));
        }
        match parse_line(lines[i].as_str()) {
            Err(e) => {
                proof {
                    assert(spec_parse_lines(data.skip(i - 1)) matches Err(p) && p.0 == 0 && p.1
                        == e@);
                }
                return Err(FileParseError::ParseLease { source: e, line: i - 1 });
            },
            Ok(l) => {
                let ghost prev = leases.deep_view();
                let ghost prev_raw = leases@;
                leases.push(l);
                proof {
                    assert(prev_raw.len() == prev.len());
                    assert forall|k: int| 0 <= k < leases@.len() implies leases.deep_view()[k]
                        == prev.push(l@)[k] by {
                        if k < prev_raw.len() {
                            assert(leases@[k] == prev_raw[k]);
                        } else {
                            assert(leases@[k] == l);
                        }
                    }
                    assert(leases.deep_view() =~= prev.push(l@));
                    match spec_parse_lines(data.skip(i as int)) {
                        Ok(rest) => {
                            assert(spec_parse_lines(data.skip(i - 1)) == Ok::<
                                _,
                                (int, ParseErrorV),
                            >(seq![l@] + rest));
                            assert(prev + (seq![l@] + rest) =~= leases.deep_view() + rest);
                        },
                        Err(p) => {
                            assert(spec_parse_lines(data.skip(i - 1)) == Err::<Seq<LeaseV>, _>(
                                (p.0 + 1, p.1),
                            ));
                        },
                    }
                }
            },
        }
        i += 1;
    }
    proof {
        assert(data.skip(i - 1) =~= Seq::<Seq<char>>::empty());
        assert(spec_parse_lines(data.skip(i - 1)) == Ok::<_, (int, ParseErrorV)>(
            Seq::<LeaseV>::empty(),
        ));
        assert(leases.deep_view() + Seq::<LeaseV>::empty() =~= leases.deep_view());
    }
    Ok(leases)
}

} // verus!
