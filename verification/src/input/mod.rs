//! Proxy nodes read from a subscription: a YAML `proxies` list, a base64
//! blob, or one share link per line.
use vstd::prelude::*;

use crate::convert::options::{ConvertError, ConvertFailure};
use crate::input::uri::{parse_uri_node, uri_node};
use crate::input::utils::{decode_subscription, subscription_text};
use crate::input::yaml::{parse_yaml_nodes, yaml_nodes};
use crate::text::{chars_of, lines_of, split_lines, string_of_chars, trim, trimmed, views};
use crate::yaml::{pairs_model, YamlModel, YamlValue};

pub mod uri;
pub mod utils;
pub mod yaml;

verus! {

/// A proxy node: its name, its type, and all its fields.
#[derive(Debug, PartialEq)]
pub struct ProxyNode {
    pub name: String,
    pub ty: String,
    pub data: Vec<(YamlValue, YamlValue)>,
}

pub ghost struct NodeModel {
    pub name: Seq<char>,
    pub ty: Seq<char>,
    pub data: Seq<(YamlModel, YamlModel)>,
}

impl View for ProxyNode {
    type V = NodeModel;

    open spec fn view(&self) -> NodeModel {
        NodeModel { name: self.name@, ty: self.ty@, data: pairs_model(self.data@) }
    }
}

pub open spec fn nodes_view(ns: Seq<ProxyNode>) -> Seq<NodeModel> {
    Seq::new(ns.len(), |i: int| ns[i]@)
}

/// Why a share link could not be read.
#[derive(Debug, Clone, Copy, PartialEq, Eq)]
pub enum UriError {
    /// The scheme is none of those read.
    UnsupportedScheme,
    /// The link is no URL.
    InvalidUrl,
    /// The percent-decoded name is no UTF-8.
    UrlDecodeFailed,
    /// The link names no port.
    MissingPort,
    /// The port is no number from 0 to 65535.
    InvalidPort,
    /// A `[` opens an IPv6 host that no `]` closes.
    InvalidIpv6Host,
    /// A shadowsocks link whose base64 part does not decode.
    InvalidShadowsocksPayload,
    /// A shadowsocks link without `@` between credentials and server.
    InvalidShadowsocksServer,
    /// Shadowsocks credentials that do not decode.
    InvalidShadowsocksCredentials,
    /// Shadowsocks credentials without `:` between method and password.
    InvalidShadowsocksMethod,
    /// A shadowsocks query that is no URL query.
    InvalidPluginQuery,
}

/// Something that was skipped on the way, and why.
#[derive(Debug, Clone, PartialEq, Eq)]
pub enum Warning {
    /// A built-in proxy (`direct`, `dns`) that sing-box already has.
    BuiltinSkipped { name: String, ty: String },
    /// A shadowsocks plugin option whose value is no scalar.
    PluginOptionSkipped { key: String, node: String },
    /// A node that could not be converted.
    NodeSkipped { name: String, ty: String, error: ConvertError },
    /// An entry of a YAML `proxies` list that is no mapping.
    NonMappingEntry,
    /// A YAML proxy without a `type`.
    MissingType { name: String },
    /// A share link that could not be read.
    LineSkipped { line: String, reason: UriError },
}

pub ghost enum WarningModel {
    BuiltinSkipped { name: Seq<char>, ty: Seq<char> },
    PluginOptionSkipped { key: Seq<char>, node: Seq<char> },
    NodeSkipped { name: Seq<char>, ty: Seq<char>, error: ConvertFailure },
    NonMappingEntry,
    MissingType { name: Seq<char> },
    LineSkipped { line: Seq<char>, reason: UriError },
}

impl View for Warning {
    type V = WarningModel;

    open spec fn view(&self) -> WarningModel {
        match self {
            Warning::BuiltinSkipped { name, ty } => WarningModel::BuiltinSkipped { name: name@, ty: ty@ },
            Warning::PluginOptionSkipped { key, node } => WarningModel::PluginOptionSkipped { key: key@, node: node@ },
            Warning::NodeSkipped { name, ty, error } => WarningModel::NodeSkipped { name: name@, ty: ty@, error: error.model() },
            Warning::NonMappingEntry => WarningModel::NonMappingEntry,
            Warning::MissingType { name } => WarningModel::MissingType { name: name@ },
            Warning::LineSkipped { line, reason } => WarningModel::LineSkipped { line: line@, reason: *reason },
        }
    }
}

pub open spec fn warnings_view(ws: Seq<Warning>) -> Seq<WarningModel> {
    Seq::new(ws.len(), |i: int| ws[i]@)
}

/// The nodes read from a subscription, and what was skipped.
#[derive(Debug, PartialEq)]
pub struct ParsedInput {
    pub nodes: Vec<ProxyNode>,
    pub warnings: Vec<Warning>,
}

/// Why a subscription could not be read.
#[derive(Debug, Clone, Copy, PartialEq, Eq)]
pub enum InputError {
    /// It is neither a YAML proxy list nor share links.
    NotRecognized,
    /// It is base64 whose decoded text could not be read.
    DecodedUnreadable,
}

/// Whether a line is skipped: blank, or a `#` comment.
pub open spec fn skipped_line(line: Seq<char>) -> bool {
    let t = trim(line);
    t.len() == 0 || t[0] == '#'
}

/// The nodes and warnings of share links, one per line.
pub open spec fn uri_fold(ls: Seq<Seq<char>>) -> (Seq<NodeModel>, Seq<WarningModel>)
    decreases ls.len(),
{
    if ls.len() == 0 {
        (seq![], seq![])
    } else {
        let st = uri_fold(ls.drop_last());
        let line = trim(ls.last());
        if skipped_line(ls.last()) {
            st
        } else {
            match uri_node(line) {
                Ok(n) => (st.0.push(n), st.1),
                Err(e) => (st.0, st.1.push(WarningModel::LineSkipped { line, reason: e })),
            }
        }
    }
}

pub ghost struct InputModel {
    pub nodes: Seq<NodeModel>,
    pub warnings: Seq<WarningModel>,
}

impl ParsedInput {
    pub open spec fn model(&self) -> InputModel {
        InputModel { nodes: nodes_view(self.nodes@), warnings: warnings_view(self.warnings@) }
    }
}

pub open spec fn input_result_view(r: Result<ParsedInput, InputError>) -> Result<InputModel, InputError> {
    match r {
        Ok(p) => Ok(p.model()),
        Err(e) => Err(e),
    }
}

/// The nodes of a text of share links, one per line; blank and `#` lines
/// are skipped, a link that cannot be read gives a warning. No node at all
/// is an error.
pub open spec fn uri_lines(content: Seq<char>) -> Result<InputModel, InputError> {
    let st = uri_fold(lines_of(content));
    if st.0.len() == 0 {
        Err(InputError::NotRecognized)
    } else {
        Ok(InputModel { nodes: st.0, warnings: st.1 })
    }
}

/// The nodes of a text of share links, one per line.
pub fn parse_uri_lines(content: &str) -> (r: Result<ParsedInput, InputError>)
    ensures
        input_result_view(r) == uri_lines(content@),
{
    let lines = split_lines(&chars_of(content));
    let ghost ls = views(lines@);
    let mut parsed = ParsedInput { nodes: Vec::new(), warnings: Vec::new() };
    assert(nodes_view(parsed.nodes@) =~= Seq::<NodeModel>::empty());
    assert(warnings_view(parsed.warnings@) =~= Seq::<WarningModel>::empty());
    assert(ls.take(0) =~= Seq::<Seq<char>>::empty());
    let mut i: usize = 0;
    while i < lines.len()
        invariant
            i <= lines@.len(),
            ls == views(lines@),
            ls == lines_of(content@),
            (nodes_view(parsed.nodes@), warnings_view(parsed.warnings@)) == uri_fold(ls.take(i as int)),
        decreases lines.len() - i,
    {
        assert(ls.take(i + 1).drop_last() =~= ls.take(i as int));
        assert(ls.take(i + 1).last() == lines@[i as int]@);
        let line = trimmed(&lines[i]);
        if line.len() == 0 || line[0] == '#' {
            i = i + 1;
            continue;
        }
        let text = string_of_chars(&line);
        let ghost n0 = nodes_view(parsed.nodes@);
        let ghost w0 = warnings_view(parsed.warnings@);
        match parse_uri_node(text.as_str()) {
            Ok(node) => {
                parsed.nodes.push(node);
                assert(nodes_view(parsed.nodes@) =~= n0.push(node@));
            },
            Err(e) => {
                parsed.warnings.push(Warning::LineSkipped { line: text, reason: e });
                assert(warnings_view(parsed.warnings@) =~= w0.push(WarningModel::LineSkipped { line: line@, reason: e }));
            },
        }
        i = i + 1;
    }
    assert(ls.take(lines@.len() as int) =~= ls);
    if parsed.nodes.len() == 0 {
        Err(InputError::NotRecognized)
    } else {
        Ok(parsed)
    }
}

/// Where reading a subscription stands: done, or waiting for the result of
/// reading its base64-decoded text.
pub enum InputStep {
    Done(Result<ParsedInput, InputError>),
    Decoded(String),
}

pub ghost enum InputStepModel {
    Done(Result<InputModel, InputError>),
    Decoded(Seq<char>),
}

impl InputStep {
    pub open spec fn model(&self) -> InputStepModel {
        match self {
            InputStep::Done(r) => InputStepModel::Done(input_result_view(*r)),
            InputStep::Decoded(s) => InputStepModel::Decoded(s@),
        }
    }
}

/// The first step of reading a subscription, given the YAML document that
/// its text parses to, if any: the YAML proxies where there are some; else
/// the decoded text of a base64 subscription, to be read in turn; else the
/// share links of its lines.
pub open spec fn input_step(content: Seq<char>, yaml: Option<YamlModel>) -> InputStepModel {
    let from_yaml = match yaml {
        Some(v) => yaml_nodes(v),
        None => (seq![], seq![]),
    };
    if from_yaml.0.len() > 0 {
        InputStepModel::Done(Ok(InputModel { nodes: from_yaml.0, warnings: from_yaml.1 }))
    } else {
        match subscription_text(content) {
            Some(d) => InputStepModel::Decoded(d),
            None => InputStepModel::Done(uri_lines(content)),
        }
    }
}

/// Reads a subscription text whose YAML parse is `yaml` (none where it is
/// no YAML): the YAML proxies, or the decoded text to read next, or the
/// share links of its lines.
pub fn parse_input(content: &str, yaml: Option<YamlValue>) -> (r: InputStep)
    ensures
        r.model() == input_step(
            content@,
            match yaml {
                Some(v) => Some(v@),
                None => None,
            },
        ),
{
    match yaml {
        Some(v) => {
            let parsed = parse_yaml_nodes(v);
            if parsed.nodes.len() > 0 {
                return InputStep::Done(Ok(parsed));
            }
        },
        None => {},
    }
    match decode_subscription(content) {
        Some(decoded) => InputStep::Decoded(decoded),
        None => InputStep::Done(parse_uri_lines(content)),
    }
}

/// The rest of reading a subscription once its decoded text was read: that
/// text's nodes where there are some, an error where it could not be read.
pub open spec fn resumed_input(content: Seq<char>, nested: Result<InputModel, InputError>) -> Result<InputModel, InputError> {
    match nested {
        Err(_) => Err(InputError::DecodedUnreadable),
        Ok(p) => if p.nodes.len() > 0 {
            Ok(p)
        } else {
            uri_lines(content)
        },
    }
}

/// Finishes reading a subscription from the result of reading its decoded
/// text.
pub fn resume_parse_input(content: &str, nested: Result<ParsedInput, InputError>) -> (r: Result<ParsedInput, InputError>)
    ensures
        input_result_view(r) == resumed_input(content@, input_result_view(nested)),
{
    match nested {
        Err(_) => Err(InputError::DecodedUnreadable),
        Ok(p) => if p.nodes.len() > 0 {
            Ok(p)
        } else {
            parse_uri_lines(content)
        },
    }
}

} // verus!
