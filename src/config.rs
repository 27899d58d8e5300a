use vstd::prelude::*;

use crate::merge::rules_view;
use crate::rule::Rule;
use crate::source::ParseError;
use crate::source::filter_lines;
use crate::source::parse_filter_list;
use crate::source::parse_plain;
use crate::source::parse_structured;
use crate::source::plain_lines;
use crate::source::structured_lines;
use crate::text::lines_of;

verus! {

/// Where a rule list comes from.
pub enum RuleSrcType {
    /// a structured rule file: its path, and whether it holds accept rules
    MosdnsFile(String, bool),
    /// a plain domain list: its path, and whether it holds accept rules
    PureFile(String, bool),
    /// an AdGuard-style filter list at a URL; holds rules of both polarities
    AdguardHomeRule(String),
    /// a geosite bundle: update URL, category, and whether it holds accept rules
    Geosite(String, String, bool),
    Unknown,
}

/// A configured source of rules.
pub struct RuleSrc {
    pub src_type: RuleSrcType,
    pub auto_update: bool,
}

/// The sources to merge and the two files the merged rules go to.
pub struct Config {
    pub rule_src: Vec<RuleSrc>,
    pub accept_rule_path: String,
    pub reject_rule_path: String,
}

/// Why a source gives no rules.
#[derive(PartialEq, Eq, Structural, Clone, Copy, Debug)]
pub enum SourceError {
    /// the source kind is reserved and not implemented
    NotImplemented,
    /// the source kind is not known
    UnknownSource,
    /// the source's text is malformed
    Parse(ParseError),
}

/// What must be fetched to learn a source's rules of one polarity.
pub enum Fetch {
    /// the source holds no rules of that polarity
    Nothing,
    /// read the file at this path
    ReadFile(String),
    /// download the text at this URL
    Download(String),
    /// the source cannot give rules
    Fail(SourceError),
}

impl Default for RuleSrcType {
    fn default() -> (r: Self)
        ensures
            r is Unknown,
    {
        RuleSrcType::Unknown
    }
}

impl RuleSrcType {
    /// What to fetch for the rules of polarity `want_accept`.
    pub fn plan(&self, want_accept: bool) -> (r: Fetch)
        ensures
            match *self {
                RuleSrcType::MosdnsFile(p, a) | RuleSrcType::PureFile(p, a) => if a != want_accept {
                    r is Nothing
                } else {
                    r matches Fetch::ReadFile(q) && q@ == p@
                },
                RuleSrcType::AdguardHomeRule(u) => r matches Fetch::Download(q) && q@ == u@,
                RuleSrcType::Geosite(_, _, _) => r == Fetch::Fail(SourceError::NotImplemented),
                RuleSrcType::Unknown => r == Fetch::Fail(SourceError::UnknownSource),
            },
    {
        match self {
            RuleSrcType::MosdnsFile(p, a) | RuleSrcType::PureFile(p, a) => {
                if *a != want_accept {
                    Fetch::Nothing
                } else {
                    Fetch::ReadFile(p.clone())
                }
            },
            RuleSrcType::AdguardHomeRule(u) => Fetch::Download(u.clone()),
            RuleSrcType::Geosite(_, _, _) => Fetch::Fail(SourceError::NotImplemented),
            RuleSrcType::Unknown => Fetch::Fail(SourceError::UnknownSource),
        }
    }

    /// The rules of polarity `want_accept` in `text`, the fetched content of
    /// this source.
    pub fn read_rules(&self, want_accept: bool, text: &str) -> (r: Result<Vec<Rule>, SourceError>)
        ensures
            match *self {
                RuleSrcType::MosdnsFile(_, _) => match structured_lines(lines_of(text@)) {
                    Some(v) => r matches Ok(out) && rules_view(out@) == v,
                    None => r == Err::<Vec<Rule>, SourceError>(
                        SourceError::Parse(ParseError::MissingSeparator),
                    ),
                },
                RuleSrcType::PureFile(_, _) => r matches Ok(out) && rules_view(out@) == plain_lines(
                    lines_of(text@),
                ),
                RuleSrcType::AdguardHomeRule(_) => r matches Ok(out) && rules_view(out@)
                    == filter_lines(lines_of(text@), want_accept),
                RuleSrcType::Geosite(_, _, _) => r == Err::<Vec<Rule>, SourceError>(
                    SourceError::NotImplemented,
                ),
                RuleSrcType::Unknown => r == Err::<Vec<Rule>, SourceError>(
                    SourceError::UnknownSource,
                ),
            },
    {
        match self {
            RuleSrcType::MosdnsFile(_, _) => match parse_structured(text) {
                Ok(v) => Ok(v),
                Err(e) => Err(SourceError::Parse(e)),
            },
            RuleSrcType::PureFile(_, _) => Ok(parse_plain(text)),
            RuleSrcType::AdguardHomeRule(_) => Ok(parse_filter_list(text, want_accept)),
            RuleSrcType::Geosite(_, _, _) => Err(SourceError::NotImplemented),
            RuleSrcType::Unknown => Err(SourceError::UnknownSource),
        }
    }
}

impl RuleSrc {
    pub fn new(src_type: RuleSrcType, auto_update: bool) -> (r: Self)
        ensures
            r.src_type == src_type,
            r.auto_update == auto_update,
    {
        RuleSrc { src_type, auto_update }
    }

    pub fn from_mosdns_file(file_path: String, accept_rule: bool, auto_update: bool) -> (r: Self)
        ensures
            r.src_type == RuleSrcType::MosdnsFile(file_path, accept_rule),
            r.auto_update == auto_update,
    {
        RuleSrc { src_type: RuleSrcType::MosdnsFile(file_path, accept_rule), auto_update }
    }

    pub fn from_adguard_home_rule(url: String, auto_update: bool) -> (r: Self)
        ensures
            r.src_type == RuleSrcType::AdguardHomeRule(url),
            r.auto_update == auto_update,
    {
        RuleSrc { src_type: RuleSrcType::AdguardHomeRule(url), auto_update }
    }

    pub fn from_geosite(
        geosite_update_url: String,
        geosite_category: String,
        accept_rule: bool,
        auto_update: bool,
    ) -> (r: Self)
        ensures
            r.src_type == RuleSrcType::Geosite(geosite_update_url, geosite_category, accept_rule),
            r.auto_update == auto_update,
    {
        RuleSrc {
            src_type: RuleSrcType::Geosite(geosite_update_url, geosite_category, accept_rule),
            auto_update,
        }
    }
}

impl Config {
    /// A configuration with the given sources, writing to `./accept.txt`
    /// and `./reject.txt`.
    pub fn new(rule_src: Vec<RuleSrc>) -> (r: Self)
        ensures
            r.rule_src == rule_src,
            r.accept_rule_path@ == "./accept.txt"@,
            r.reject_rule_path@ == "./reject.txt"@,
    {
        Config {
            rule_src,
            accept_rule_path: String::from_str("./accept.txt"),
            reject_rule_path: String::from_str("./reject.txt"),
        }
    }

    pub fn add(&mut self, rule_src: RuleSrc)
        ensures
            final(self).rule_src@ == old(self).rule_src@.push(rule_src),
            final(self).accept_rule_path == old(self).accept_rule_path,
            final(self).reject_rule_path == old(self).reject_rule_path,
    {
        self.rule_src.push(rule_src);
    }
}

} // verus!
