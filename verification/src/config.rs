//! The typed configuration model: bind address, document root, index
//! file, auto-index flag, route overrides and content-type overrides.
//!
//! All text is held as bytes; the loader in this module parses the
//! line-oriented configuration format, and a writer emits it back.
use vstd::prelude::*;
use crate::bytemap::{assoc_has, assoc_insert, distinct_keys, ByteMap};
use crate::text::{
    dec_value, digits_part, find_byte, find_first, is_prefix, is_valid_uint, lemma_find_first,
    parse_usize, spec_lower, spec_trim, starts_with, str_bytes, to_lower, trim,
};
use vstd::slice::{slice_subrange, slice_to_vec};
use vstd::string::StringSliceAdditionalSpecFns;

verus! {

#[derive(Debug)]
pub struct ServerConfig {
    pub host: Vec<u8>,
    pub port: u16,
}

#[derive(Debug)]
pub struct StaticConfig {
    pub root_dir: Vec<u8>,
    pub index_file: Vec<u8>,
    pub auto_index: bool,
    pub routes: ByteMap,
}

#[derive(Debug)]
pub struct AppConfig {
    pub server: ServerConfig,
    pub static_cfg: StaticConfig,
    pub content_types: ByteMap,
}

#[derive(Debug)]
pub enum ConfigError {
    /// The configuration file could not be read; raised by the caller
    /// that does the reading, never by the parser itself.
    Io,
    /// The text does not parse; carries a message.
    Parse(Vec<u8>),
    /// The parsed values are unusable; carries a message.
    Invalid(Vec<u8>),
}

/// The mathematical shape of a configuration.
pub struct ConfigModel {
    pub host: Seq<u8>,
    pub port: u16,
    pub root_dir: Seq<u8>,
    pub index_file: Seq<u8>,
    pub auto_index: bool,
    pub routes: Seq<(Seq<u8>, Seq<u8>)>,
    pub content_types: Seq<(Seq<u8>, Seq<u8>)>,
}

impl View for AppConfig {
    type V = ConfigModel;

    open spec fn view(&self) -> ConfigModel {
        ConfigModel {
            host: self.server.host@,
            port: self.server.port,
            root_dir: self.static_cfg.root_dir@,
            index_file: self.static_cfg.index_file@,
            auto_index: self.static_cfg.auto_index,
            routes: self.static_cfg.routes@,
            content_types: self.content_types@,
        }
    }
}

/// The defaults the parser starts from.
pub open spec fn initial_model() -> ConfigModel {
    ConfigModel {
        host: Seq::empty(),
        port: 8080,
        root_dir: Seq::empty(),
        index_file: Seq::empty(),
        auto_index: false,
        routes: Seq::empty(),
        content_types: Seq::empty(),
    }
}

/// A line with one trailing `\r` removed, as `str::lines` yields it.
pub open spec fn strip_cr(l: Seq<u8>) -> Seq<u8> {
    if l.len() > 0 && l[l.len() - 1] == 13 {
        l.drop_last()
    } else {
        l
    }
}

/// The lines of `s`, split at `\n`, each with a trailing `\r`
/// removed, with no final empty line after a trailing `\n`.
pub open spec fn spec_lines(s: Seq<u8>) -> Seq<Seq<u8>>
    decreases s.len(),
{
    if s.len() == 0 {
        Seq::empty()
    } else {
        match find_first(s, 10) {
            Some(i) => {
                proof {
                    lemma_find_first(s, 10);
                }
                seq![strip_cr(s.take(i))] + spec_lines(s.skip(i + 1))
            },
            None => seq![strip_cr(s)],
        }
    }
}

/// A trimmed value with surrounding double quotes removed.
pub open spec fn spec_strip_quotes(v: Seq<u8>) -> Seq<u8> {
    if v.len() >= 2 && v[0] == 34 && v[v.len() - 1] == 34 {
        v.subrange(1, v.len() - 1)
    } else {
        v
    }
}

/// The value of a `key: value` line: the text after the first `:`,
/// trimmed, unquoted; an error when the line holds no `:`.
pub open spec fn spec_extract_value(l: Seq<u8>) -> Result<Seq<u8>, Seq<u8>> {
    match find_first(l, 58) {
        Some(i) => Ok(spec_strip_quotes(spec_trim(l.skip(i + 1)))),
        None => Err("Invalid key-value format".spec_bytes()),
    }
}

/// A `key: value` line split at its first `:`, both sides trimmed,
/// the value unquoted; `None` when the line holds no `:`.
pub open spec fn spec_key_value(l: Seq<u8>) -> Option<(Seq<u8>, Seq<u8>)> {
    match find_first(l, 58) {
        Some(i) => Some(
            (spec_trim(l.take(i)), spec_strip_quotes(spec_trim(l.skip(i + 1)))),
        ),
        None => None,
    }
}

/// Where in the indentation-sensitive format a line stands.
#[derive(Debug, Clone, Copy)]
pub enum Section {
    Top,
    Server,
    Static,
    Routes,
    ContentTypes,
}

/// One step of the configuration parser: consume `line` in section
/// `sec`, yielding the next section and the updated model, or a
/// parse-error message.  A line that ends an indented section is
/// consumed without further processing, as the scanning loops of the
/// grammar leave it behind.
pub open spec fn spec_step(sec: Section, line: Seq<u8>, m: ConfigModel) -> Result<
    (Section, ConfigModel),
    Seq<u8>,
> {
    let t = spec_trim(line);
    match sec {
        Section::Top => {
            if is_prefix("server:".spec_bytes(), t) {
                Ok((Section::Server, m))
            } else if is_prefix("static:".spec_bytes(), t) {
                Ok((Section::Static, m))
            } else if is_prefix("content_types:".spec_bytes(), t) {
                Ok((Section::ContentTypes, m))
            } else {
                Ok((Section::Top, m))
            }
        },
        Section::Server => {
            if !is_prefix("  ".spec_bytes(), line) {
                Ok((Section::Top, m))
            } else if is_prefix("host:".spec_bytes(), t) {
                match spec_extract_value(t) {
                    Ok(v) => Ok((Section::Server, ConfigModel { host: v, ..m })),
                    Err(e) => Err(e),
                }
            } else if is_prefix("port:".spec_bytes(), t) {
                match spec_extract_value(t) {
                    Ok(v) => if is_valid_uint(v) && dec_value(digits_part(v)) <= 65535 {
                        Ok(
                            (
                                Section::Server,
                                ConfigModel { port: dec_value(digits_part(v)) as u16, ..m },
                            ),
                        )
                    } else {
                        Err("Invalid port number".spec_bytes())
                    },
                    Err(e) => Err(e),
                }
            } else {
                Ok((Section::Server, m))
            }
        },
        Section::Static => {
            if !is_prefix("  ".spec_bytes(), line) {
                Ok((Section::Top, m))
            } else {
                spec_static_sub(t, m)
            }
        },
        Section::Routes => {
            if is_prefix("    ".spec_bytes(), line) {
                Ok(
                    (
                        Section::Routes,
                        match spec_key_value(t) {
                            Some(kv) => ConfigModel {
                                routes: assoc_insert(m.routes, kv.0, kv.1),
                                ..m
                            },
                            None => m,
                        },
                    ),
                )
            } else if is_prefix("  ".spec_bytes(), line) {
                spec_static_sub(t, m)
            } else {
                Ok((Section::Top, m))
            }
        },
        Section::ContentTypes => {
            if !is_prefix("  ".spec_bytes(), line) {
                Ok((Section::Top, m))
            } else {
                Ok(
                    (
                        Section::ContentTypes,
                        match spec_key_value(t) {
                            Some(kv) => ConfigModel {
                                content_types: assoc_insert(m.content_types, kv.0, kv.1),
                                ..m
                            },
                            None => m,
                        },
                    ),
                )
            }
        },
    }
}

/// A trimmed line inside the `static:` section.
pub open spec fn spec_static_sub(t: Seq<u8>, m: ConfigModel) -> Result<
    (Section, ConfigModel),
    Seq<u8>,
> {
    if is_prefix("root_dir:".spec_bytes(), t) {
        match spec_extract_value(t) {
            Ok(v) => Ok((Section::Static, ConfigModel { root_dir: v, ..m })),
            Err(e) => Err(e),
        }
    } else if is_prefix("index_file:".spec_bytes(), t) {
        match spec_extract_value(t) {
            Ok(v) => Ok((Section::Static, ConfigModel { index_file: v, ..m })),
            Err(e) => Err(e),
        }
    } else if is_prefix("auto_index:".spec_bytes(), t) {
        match spec_extract_value(t) {
            Ok(v) => Ok(
                (
                    Section::Static,
                    ConfigModel { auto_index: spec_lower(v) == "true".spec_bytes(), ..m },
                ),
            ),
            Err(e) => Err(e),
        }
    } else if is_prefix("routes:".spec_bytes(), t) {
        Ok((Section::Routes, m))
    } else {
        Ok((Section::Static, m))
    }
}

/// The parser run over a list of lines.
pub open spec fn spec_run_lines(lines: Seq<Seq<u8>>, sec: Section, m: ConfigModel) -> Result<
    ConfigModel,
    Seq<u8>,
>
    decreases lines.len(),
{
    if lines.len() == 0 {
        Ok(m)
    } else {
        match spec_step(sec, lines[0], m) {
            Err(e) => Err(e),
            Ok(sm) => spec_run_lines(lines.drop_first(), sm.0, sm.1),
        }
    }
}

/// What parsing configuration text yields.
pub open spec fn spec_parse_config(s: Seq<u8>) -> Result<ConfigModel, Seq<u8>> {
    spec_run_lines(spec_lines(s), Section::Top, initial_model())
}

/// The value of a `key: value` line, or a parse error.
pub fn extract_value(line: &[u8]) -> (r: Result<Vec<u8>, ConfigError>)
    ensures
        match r {
            Ok(v) => spec_extract_value(line@) == Ok::<Seq<u8>, Seq<u8>>(v@),
            Err(e) => e matches ConfigError::Parse(msg) && spec_extract_value(line@) == Err::<
                Seq<u8>,
                Seq<u8>,
            >(msg@),
        },
{
    proof {
        lemma_find_first(line@, 58);
    }
    let n = line.len();
    match find_byte(line, 58) {
        Some(i) => {
            let raw = slice_subrange(line, i + 1, n);
            proof {
                assert(raw@ =~= line@.skip(i + 1));
            }
            Ok(strip_quotes_bytes(trim(raw)))
        },
        None => Err(ConfigError::Parse(str_bytes("Invalid key-value format"))),
    }
}

/// A `key: value` line split into trimmed key and unquoted value.
pub fn parse_key_value(line: &[u8]) -> (r: Option<(Vec<u8>, Vec<u8>)>)
    ensures
        match r {
            Some(kv) => spec_key_value(line@) == Some((kv.0@, kv.1@)),
            None => spec_key_value(line@) is None,
        },
{
    proof {
        lemma_find_first(line@, 58);
    }
    let n = line.len();
    match find_byte(line, 58) {
        Some(i) => {
            let key_raw = slice_subrange(line, 0, i);
            let val_raw = slice_subrange(line, i + 1, n);
            proof {
                assert(key_raw@ =~= line@.take(i as int));
                assert(val_raw@ =~= line@.skip(i + 1));
            }
            let key = slice_to_vec(trim(key_raw));
            let val = strip_quotes_bytes(trim(val_raw));
            Some((key, val))
        },
        None => None,
    }
}

fn strip_quotes_bytes(v: &[u8]) -> (r: Vec<u8>)
    ensures
        r@ == spec_strip_quotes(v@),
{
    if v.len() >= 2 && v[0] == 34 && v[v.len() - 1] == 34 {
        let inner = slice_subrange(v, 1, v.len() - 1);
        proof {
            assert(inner@ =~= v@.subrange(1, v@.len() - 1));
        }
        slice_to_vec(inner)
    } else {
        slice_to_vec(v)
    }
}

struct ParseState {
    sec: Section,
    host: Vec<u8>,
    port: u16,
    root_dir: Vec<u8>,
    index_file: Vec<u8>,
    auto_index: bool,
    routes: ByteMap,
    content_types: ByteMap,
}

impl ParseState {
    spec fn spec_sec(&self) -> Section {
        self.sec
    }

    spec fn spec_model(&self) -> ConfigModel {
        ConfigModel {
            host: self.host@,
            port: self.port,
            root_dir: self.root_dir@,
            index_file: self.index_file@,
            auto_index: self.auto_index,
            routes: self.routes@,
            content_types: self.content_types@,
        }
    }

    spec fn wf(&self) -> bool {
        distinct_keys(self.routes@) && distinct_keys(self.content_types@)
    }

    fn new() -> (r: ParseState)
        ensures
            r.wf(),
            r.spec_sec() is Top,
            r.spec_model() == initial_model(),
    {
        let r = ParseState {
            sec: Section::Top,
            host: Vec::new(),
            port: 8080,
            root_dir: Vec::new(),
            index_file: Vec::new(),
            auto_index: false,
            routes: ByteMap::new(),
            content_types: ByteMap::new(),
        };
        proof {
            assert(r.spec_model() =~~= initial_model());
        }
        r
    }

    fn static_sub(self, t: &[u8]) -> (r: Result<ParseState, ConfigError>)
        requires
            self.wf(),
        ensures
            match r {
                Ok(st) => st.wf() && spec_static_sub(t@, self.spec_model()) == Ok::<
                    (Section, ConfigModel),
                    Seq<u8>,
                >((st.spec_sec(), st.spec_model())),
                Err(e) => e matches ConfigError::Parse(msg) && spec_static_sub(
                    t@,
                    self.spec_model(),
                ) == Err::<(Section, ConfigModel), Seq<u8>>(msg@),
            },
    {
        let mut st = self;
        if starts_with(t, str_bytes("root_dir:").as_slice()) {
            match extract_value(t) {
                Ok(v) => {
                    st.root_dir = v;
                    st.sec = Section::Static;
                    Ok(st)
                },
                Err(e) => Err(e),
            }
        } else if starts_with(t, str_bytes("index_file:").as_slice()) {
            match extract_value(t) {
                Ok(v) => {
                    st.index_file = v;
                    st.sec = Section::Static;
                    Ok(st)
                },
                Err(e) => Err(e),
            }
        } else if starts_with(t, str_bytes("auto_index:").as_slice()) {
            match extract_value(t) {
                Ok(v) => {
                    let lowered = to_lower(v.as_slice());
                    st.auto_index = crate::text::bytes_eq(
                        lowered.as_slice(),
                        str_bytes("true").as_slice(),
                    );
                    st.sec = Section::Static;
                    Ok(st)
                },
                Err(e) => Err(e),
            }
        } else if starts_with(t, str_bytes("routes:").as_slice()) {
            st.sec = Section::Routes;
            Ok(st)
        } else {
            st.sec = Section::Static;
            Ok(st)
        }
    }

    fn step(self, line: &[u8]) -> (r: Result<ParseState, ConfigError>)
        requires
            self.wf(),
        ensures
            match r {
                Ok(st) => st.wf() && spec_step(self.spec_sec(), line@, self.spec_model()) == Ok::<
                    (Section, ConfigModel),
                    Seq<u8>,
                >((st.spec_sec(), st.spec_model())),
                Err(e) => e matches ConfigError::Parse(msg) && spec_step(
                    self.spec_sec(),
                    line@,
                    self.spec_model(),
                ) == Err::<(Section, ConfigModel), Seq<u8>>(msg@),
            },
    {
        let mut st = self;
        let t = trim(line);
        match st.sec {
            Section::Top => {
                if starts_with(t, str_bytes("server:").as_slice()) {
                    st.sec = Section::Server;
                } else if starts_with(t, str_bytes("static:").as_slice()) {
                    st.sec = Section::Static;
                } else if starts_with(t, str_bytes("content_types:").as_slice()) {
                    st.sec = Section::ContentTypes;
                }
                Ok(st)
            },
            Section::Server => {
                if !starts_with(line, str_bytes("  ").as_slice()) {
                    st.sec = Section::Top;
                    Ok(st)
                } else if starts_with(t, str_bytes("host:").as_slice()) {
                    match extract_value(t) {
                        Ok(v) => {
                            st.host = v;
                            Ok(st)
                        },
                        Err(e) => Err(e),
                    }
                } else if starts_with(t, str_bytes("port:").as_slice()) {
                    match extract_value(t) {
                        Ok(v) => match parse_usize(v.as_slice()) {
                            Some(n) if n <= 65535 => {
                                st.port = n as u16;
                                Ok(st)
                            },
                            _ => Err(ConfigError::Parse(str_bytes("Invalid port number"))),
                        },
                        Err(e) => Err(e),
                    }
                } else {
                    Ok(st)
                }
            },
            Section::Static => {
                if !starts_with(line, str_bytes("  ").as_slice()) {
                    st.sec = Section::Top;
                    Ok(st)
                } else {
                    st.static_sub(t)
                }
            },
            Section::Routes => {
                if starts_with(line, str_bytes("    ").as_slice()) {
                    if let Some((k, v)) = parse_key_value(t) {
                        st.routes.insert(k, v);
                    }
                    Ok(st)
                } else if starts_with(line, str_bytes("  ").as_slice()) {
                    st.static_sub(t)
                } else {
                    st.sec = Section::Top;
                    Ok(st)
                }
            },
            Section::ContentTypes => {
                if !starts_with(line, str_bytes("  ").as_slice()) {
                    st.sec = Section::Top;
                    Ok(st)
                } else {
                    if let Some((k, v)) = parse_key_value(t) {
                        st.content_types.insert(k, v);
                    }
                    Ok(st)
                }
            },
        }
    }
}

/// Parse configuration text into the typed model.  Only `Parse`
/// errors can arise here; validation is the loader's business.
pub fn parse_yaml_config(content: &[u8]) -> (r: Result<AppConfig, ConfigError>)
    ensures
        match r {
            Ok(cfg) => spec_parse_config(content@) == Ok::<ConfigModel, Seq<u8>>(cfg@)
                && distinct_keys(cfg.static_cfg.routes@) && distinct_keys(cfg.content_types@),
            Err(e) => e matches ConfigError::Parse(msg) && spec_parse_config(content@) == Err::<
                ConfigModel,
                Seq<u8>,
            >(msg@),
        },
{
    let mut st = ParseState::new();
    let mut pos: usize = 0;
    let total = content.len();
    proof {
        assert(total == content@.len());
        assert(content@.skip(0) =~= content@);
    }
    loop
        invariant
            pos <= content@.len(),
            content@.len() <= usize::MAX,
            st.wf(),
            spec_run_lines(spec_lines(content@), Section::Top, initial_model())
                == spec_run_lines(spec_lines(content@.skip(pos as int)), st.spec_sec(), st.spec_model()),
        decreases content@.len() - pos,
    {
        if pos == content.len() {
            proof {
                assert(content@.skip(pos as int) =~= Seq::<u8>::empty());
            }
            let cfg = AppConfig {
                server: ServerConfig { host: st.host, port: st.port },
                static_cfg: StaticConfig {
                    root_dir: st.root_dir,
                    index_file: st.index_file,
                    auto_index: st.auto_index,
                    routes: st.routes,
                },
                content_types: st.content_types,
            };
            proof {
                assert(cfg@ =~~= st.spec_model());
            }
            return Ok(cfg);
        }
        let tail = slice_subrange(content, pos, content.len());
        proof {
            lemma_find_first(tail@, 10);
        }
        let (raw, next): (&[u8], usize) = match find_byte(tail, 10) {
            Some(i) => (slice_subrange(tail, 0, i), pos + i + 1),
            None => (tail, content.len()),
        };
        let line: &[u8] = if raw.len() > 0 && raw[raw.len() - 1] == 13 {
            let c = slice_subrange(raw, 0, raw.len() - 1);
            proof {
                assert(c@ =~= raw@.drop_last());
            }
            c
        } else {
            raw
        };
        proof {
            let s = content@.skip(pos as int);
            lemma_find_first(s, 10);
            match find_first(s, 10) {
                Some(i) => {
                    assert(raw@ =~= s.take(i));
                    assert(content@.skip(next as int) =~= s.skip(i + 1));
                    assert(spec_lines(s) == seq![strip_cr(s.take(i))] + spec_lines(s.skip(i + 1)));
                    assert(line@ == strip_cr(s.take(i)));
                    assert(spec_lines(s)[0] == line@);
                    assert(spec_lines(s).drop_first() =~= spec_lines(content@.skip(next as int)));
                },
                None => {
                    assert(raw@ =~= s);
                    assert(content@.skip(next as int) =~= Seq::<u8>::empty());
                    assert(spec_lines(s) == seq![strip_cr(s)]);
                    assert(spec_lines(s)[0] == line@);
                    assert(spec_lines(s).drop_first() =~= spec_lines(content@.skip(next as int)));
                },
            }
        }
        match st.step(line) {
            Ok(st2) => {
                st = st2;
                pos = next;
            },
            Err(e) => {
                return Err(e);
            },
        }
    }
}

/// A value as the writer emits it: wrapped in double quotes.
pub open spec fn spec_quote(v: Seq<u8>) -> Seq<u8> {
    seq![34u8] + v + seq![34u8]
}

/// An emitted `key: "value"` entry line under the given indentation.
pub open spec fn spec_entry_line(indent: Seq<u8>, k: Seq<u8>, v: Seq<u8>) -> Seq<u8> {
    indent + k + ": ".spec_bytes() + spec_quote(v)
}

pub open spec fn spec_entry_lines(indent: Seq<u8>, es: Seq<(Seq<u8>, Seq<u8>)>) -> Seq<Seq<u8>> {
    Seq::new(es.len(), |i: int| spec_entry_line(indent, es[i].0, es[i].1))
}

/// The lines the configuration writer emits, in order.  A blank line
/// separates the sections, as the scanning grammar consumes one
/// unindented line when an indented section ends.
pub open spec fn spec_config_lines(m: ConfigModel) -> Seq<Seq<u8>> {
    seq![
        "server:".spec_bytes(),
        "  ".spec_bytes() + "host: ".spec_bytes() + spec_quote(m.host),
        "  ".spec_bytes() + "port: ".spec_bytes() + crate::text::dec_repr(m.port as nat),
        Seq::<u8>::empty(),
        "static:".spec_bytes(),
        "  ".spec_bytes() + "root_dir: ".spec_bytes() + spec_quote(m.root_dir),
        "  ".spec_bytes() + "index_file: ".spec_bytes() + spec_quote(m.index_file),
        "  ".spec_bytes() + "auto_index: ".spec_bytes() + (if m.auto_index {
            "true".spec_bytes()
        } else {
            "false".spec_bytes()
        }),
        "  ".spec_bytes() + "routes:".spec_bytes(),
    ] + spec_entry_lines("    ".spec_bytes(), m.routes) + seq![
        Seq::<u8>::empty(),
        "content_types:".spec_bytes(),
    ] + spec_entry_lines("  ".spec_bytes(), m.content_types)
}

/// Lines joined with `\n`, one after each line.
pub open spec fn spec_join_lines(lines: Seq<Seq<u8>>) -> Seq<u8>
    decreases lines.len(),
{
    if lines.len() == 0 {
        Seq::empty()
    } else {
        lines[0] + seq![10u8] + spec_join_lines(lines.drop_first())
    }
}

/// The text the configuration writer produces.
pub open spec fn spec_emit_config(m: ConfigModel) -> Seq<u8> {
    spec_join_lines(spec_config_lines(m))
}

pub proof fn lemma_join_lines_push(a: Seq<Seq<u8>>, l: Seq<u8>)
    ensures
        spec_join_lines(a.push(l)) == spec_join_lines(a) + l + seq![10u8],
    decreases a.len(),
{
    if a.len() == 0 {
        assert(a.push(l).drop_first() =~= Seq::<Seq<u8>>::empty());
        assert(a.push(l)[0] == l);
        assert(spec_join_lines(Seq::<Seq<u8>>::empty()) == Seq::<u8>::empty());
        assert(spec_join_lines(a.push(l)) == l + seq![10u8] + Seq::<u8>::empty());
        assert(spec_join_lines(a) + l + seq![10u8] =~= l + seq![10u8] + Seq::<u8>::empty());
    } else {
        lemma_join_lines_push(a.drop_first(), l);
        assert(a.push(l).drop_first() =~= a.drop_first().push(l));
        assert(a.push(l)[0] == a[0]);
        assert(spec_join_lines(a.push(l)) == a[0] + seq![10u8] + (spec_join_lines(a.drop_first())
            + l + seq![10u8]));
        assert(a[0] + seq![10u8] + (spec_join_lines(a.drop_first()) + l + seq![10u8]) =~= (a[0]
            + seq![10u8] + spec_join_lines(a.drop_first())) + l + seq![10u8]);
    }
}

/// Append one line and its newline to the output.
fn push_line(out: &mut Vec<u8>, line: &[u8])
    ensures
        final(out)@ == old(out)@ + line@ + seq![10u8],
{
    out.extend_from_slice(line);
    out.push(10);
    proof {
        assert(final(out)@ =~= old(out)@ + line@ + seq![10u8]);
    }
}

/// Append an entry line `indent k: "v"` and its newline.
fn push_entry_line(out: &mut Vec<u8>, indent: &[u8], k: &[u8], v: &[u8])
    ensures
        final(out)@ == old(out)@ + spec_entry_line(indent@, k@, v@) + seq![10u8],
{
    out.extend_from_slice(indent);
    out.extend_from_slice(k);
    let sep = str_bytes(": ");
    out.extend_from_slice(sep.as_slice());
    out.push(34);
    out.extend_from_slice(v);
    out.push(34);
    out.push(10);
    proof {
        assert(final(out)@ =~= old(out)@ + spec_entry_line(indent@, k@, v@) + seq![10u8]);
    }
}

/// Write a configuration back out in the line-oriented format the
/// loader reads, every value quoted, with a blank line between
/// sections.
pub fn write_config(cfg: &AppConfig) -> (out: Vec<u8>)
    ensures
        out@ == spec_emit_config(cfg@),
{
    let mut out: Vec<u8> = Vec::new();
    let ghost lines = spec_config_lines(cfg@);
    proof {
        assert(out@ =~= spec_join_lines(lines.take(0)));
    }
    let l0 = str_bytes("server:");
    push_line(&mut out, l0.as_slice());
    proof {
        assert(lines.take(1) =~= lines.take(0).push(lines[0]));
        lemma_join_lines_push(lines.take(0), lines[0]);
        assert(out@ == spec_join_lines(lines.take(1)));
    }
    let mut l1: Vec<u8> = str_bytes("  ");
    l1.extend_from_slice(str_bytes("host: ").as_slice());
    let q1 = quote_value(cfg.server.host.as_slice());
    l1.extend_from_slice(q1.as_slice());
    push_line(&mut out, l1.as_slice());
    proof {
        assert(l1@ =~= lines[1]);
        assert(lines.take(2) =~= lines.take(1).push(lines[1]));
        lemma_join_lines_push(lines.take(1), lines[1]);
        assert(out@ == spec_join_lines(lines.take(2)));
    }
    let mut l2: Vec<u8> = str_bytes("  ");
    l2.extend_from_slice(str_bytes("port: ").as_slice());
    let digits = crate::text::usize_to_dec(cfg.server.port as usize);
    l2.extend_from_slice(digits.as_slice());
    push_line(&mut out, l2.as_slice());
    proof {
        assert(l2@ =~= lines[2]);
        assert(lines.take(3) =~= lines.take(2).push(lines[2]));
        lemma_join_lines_push(lines.take(2), lines[2]);
        assert(out@ == spec_join_lines(lines.take(3)));
    }
    let blank: Vec<u8> = Vec::new();
    push_line(&mut out, blank.as_slice());
    proof {
        assert(blank@ =~= lines[3]);
        assert(lines.take(4) =~= lines.take(3).push(lines[3]));
        lemma_join_lines_push(lines.take(3), lines[3]);
        assert(out@ =~= spec_join_lines(lines.take(4)));
    }
    let l4 = str_bytes("static:");
    push_line(&mut out, l4.as_slice());
    proof {
        assert(lines.take(5) =~= lines.take(4).push(lines[4]));
        lemma_join_lines_push(lines.take(4), lines[4]);
        assert(out@ == spec_join_lines(lines.take(5)));
    }
    let mut l5: Vec<u8> = str_bytes("  ");
    l5.extend_from_slice(str_bytes("root_dir: ").as_slice());
    let q5 = quote_value(cfg.static_cfg.root_dir.as_slice());
    l5.extend_from_slice(q5.as_slice());
    push_line(&mut out, l5.as_slice());
    proof {
        assert(l5@ =~= lines[5]);
        assert(lines.take(6) =~= lines.take(5).push(lines[5]));
        lemma_join_lines_push(lines.take(5), lines[5]);
        assert(out@ == spec_join_lines(lines.take(6)));
    }
    let mut l6: Vec<u8> = str_bytes("  ");
    l6.extend_from_slice(str_bytes("index_file: ").as_slice());
    let q6 = quote_value(cfg.static_cfg.index_file.as_slice());
    l6.extend_from_slice(q6.as_slice());
    push_line(&mut out, l6.as_slice());
    proof {
        assert(l6@ =~= lines[6]);
        assert(lines.take(7) =~= lines.take(6).push(lines[6]));
        lemma_join_lines_push(lines.take(6), lines[6]);
        assert(out@ == spec_join_lines(lines.take(7)));
    }
    let mut l7: Vec<u8> = str_bytes("  ");
    l7.extend_from_slice(str_bytes("auto_index: ").as_slice());
    if cfg.static_cfg.auto_index {
        l7.extend_from_slice(str_bytes("true").as_slice());
    } else {
        l7.extend_from_slice(str_bytes("false").as_slice());
    }
    push_line(&mut out, l7.as_slice());
    proof {
        assert(l7@ =~= lines[7]);
        assert(lines.take(8) =~= lines.take(7).push(lines[7]));
        lemma_join_lines_push(lines.take(7), lines[7]);
        assert(out@ == spec_join_lines(lines.take(8)));
    }
    let mut l8: Vec<u8> = str_bytes("  ");
    l8.extend_from_slice(str_bytes("routes:").as_slice());
    push_line(&mut out, l8.as_slice());
    proof {
        assert(l8@ =~= lines[8]);
        assert(lines.take(9) =~= lines.take(8).push(lines[8]));
        lemma_join_lines_push(lines.take(8), lines[8]);
        assert(out@ == spec_join_lines(lines.take(9)));
    }
    let indent4 = str_bytes("    ");
    let mut i: usize = 0;
    let n = cfg.static_cfg.routes.len();
    while i < n
        invariant
            i <= n,
            n == cfg.static_cfg.routes@.len(),
            lines == spec_config_lines(cfg@),
            lines.len() == 11 + n + cfg.content_types@.len(),
            indent4@ == "    ".spec_bytes(),
            out@ == spec_join_lines(lines.take(9 + i)),
        decreases n - i,
    {
        let k = cfg.static_cfg.routes.key_at(i);
        let v = cfg.static_cfg.routes.val_at(i);
        push_entry_line(&mut out, indent4.as_slice(), k.as_slice(), v.as_slice());
        proof {
            assert(lines[9 + i] == spec_entry_line(
                "    ".spec_bytes(),
                cfg.static_cfg.routes@[i as int].0,
                cfg.static_cfg.routes@[i as int].1,
            ));
            assert(lines.take(9 + i + 1) =~= lines.take(9 + i).push(lines[9 + i]));
            lemma_join_lines_push(lines.take(9 + i), lines[9 + i]);
        }
        i += 1;
    }
    let ghost base = 9 + cfg.static_cfg.routes@.len() as int;
    let blank2: Vec<u8> = Vec::new();
    push_line(&mut out, blank2.as_slice());
    proof {
        assert(blank2@ =~= lines[base]);
        assert(lines.take(base + 1) =~= lines.take(base).push(lines[base]));
        lemma_join_lines_push(lines.take(base), lines[base]);
        assert(out@ == spec_join_lines(lines.take(base + 1)));
    }
    let lc = str_bytes("content_types:");
    push_line(&mut out, lc.as_slice());
    proof {
        assert(lc@ =~= lines[base + 1]);
        assert(lines.take(base + 2) =~= lines.take(base + 1).push(lines[base + 1]));
        lemma_join_lines_push(lines.take(base + 1), lines[base + 1]);
        assert(out@ == spec_join_lines(lines.take(base + 2)));
    }
    let indent2 = str_bytes("  ");
    let mut j: usize = 0;
    let cn = cfg.content_types.len();
    while j < cn
        invariant
            j <= cn,
            cn == cfg.content_types@.len(),
            lines == spec_config_lines(cfg@),
            lines.len() == 11 + cfg.static_cfg.routes@.len() + cn,
            base == 9 + cfg.static_cfg.routes@.len(),
            indent2@ == "  ".spec_bytes(),
            out@ == spec_join_lines(lines.take(base + 2 + j)),
        decreases cn - j,
    {
        let k = cfg.content_types.key_at(j);
        let v = cfg.content_types.val_at(j);
        push_entry_line(&mut out, indent2.as_slice(), k.as_slice(), v.as_slice());
        proof {
            assert(lines[base + 2 + j] == spec_entry_line(
                "  ".spec_bytes(),
                cfg.content_types@[j as int].0,
                cfg.content_types@[j as int].1,
            ));
            assert(lines.take(base + 2 + j + 1) =~= lines.take(base + 2 + j).push(
                lines[base + 2 + j],
            ));
            lemma_join_lines_push(lines.take(base + 2 + j), lines[base + 2 + j]);
        }
        j += 1;
    }
    proof {
        assert(lines.take(lines.len() as int) =~= lines);
    }
    out
}

/// A value wrapped in double quotes.
fn quote_value(v: &[u8]) -> (r: Vec<u8>)
    ensures
        r@ == spec_quote(v@),
{
    let mut r: Vec<u8> = Vec::new();
    r.push(34);
    r.extend_from_slice(v);
    r.push(34);
    proof {
        assert(r@ =~= spec_quote(v@));
    }
    r
}

/// Load configuration from file text: parse, then validate that the
/// host, document root and index file are non-blank.
pub fn config_from_bytes(content: &[u8]) -> (r: Result<AppConfig, ConfigError>)
    ensures
        match r {
            Ok(cfg) => {
                &&& spec_parse_config(content@) == Ok::<ConfigModel, Seq<u8>>(cfg@)
                &&& spec_trim(cfg@.host).len() > 0
                &&& spec_trim(cfg@.root_dir).len() > 0
                &&& spec_trim(cfg@.index_file).len() > 0
                &&& distinct_keys(cfg.static_cfg.routes@)
                &&& distinct_keys(cfg.content_types@)
            },
            Err(e) => match e {
                ConfigError::Parse(msg) => spec_parse_config(content@) == Err::<
                    ConfigModel,
                    Seq<u8>,
                >(msg@),
                ConfigError::Invalid(msg) => spec_parse_config(content@) matches Ok(m) && ({
                    if spec_trim(m.host).len() == 0 {
                        msg@ == "server.host cannot be empty".spec_bytes()
                    } else if spec_trim(m.root_dir).len() == 0 {
                        msg@ == "static.root_dir cannot be empty".spec_bytes()
                    } else {
                        spec_trim(m.index_file).len() == 0 && msg@
                            == "static.index_file cannot be empty".spec_bytes()
                    }
                }),
                ConfigError::Io => false,
            },
        },
{
    let cfg = match parse_yaml_config(content) {
        Ok(cfg) => cfg,
        Err(e) => {
            return Err(e);
        },
    };
    if trim(cfg.server.host.as_slice()).len() == 0 {
        return Err(ConfigError::Invalid(str_bytes("server.host cannot be empty")));
    }
    if trim(cfg.static_cfg.root_dir.as_slice()).len() == 0 {
        return Err(ConfigError::Invalid(str_bytes("static.root_dir cannot be empty")));
    }
    if trim(cfg.static_cfg.index_file.as_slice()).len() == 0 {
        return Err(ConfigError::Invalid(str_bytes("static.index_file cannot be empty")));
    }
    Ok(cfg)
}



/// No occurrence of byte `b` in `s`.
pub open spec fn no_byte(s: Seq<u8>, b: u8) -> bool {
    forall|i: int| 0 <= i < s.len() ==> s[i] != b
}

/// A value the writer can emit reversibly: it holds no newline.
pub open spec fn writable_value(v: Seq<u8>) -> bool {
    no_byte(v, 10)
}

/// A key the writer can emit reversibly: no newline, no colon, and
/// no leading or trailing whitespace.
pub open spec fn writable_key(k: Seq<u8>) -> bool {
    no_byte(k, 10) && no_byte(k, 58) && spec_trim(k) == k
}

pub open spec fn writable_entries(es: Seq<(Seq<u8>, Seq<u8>)>) -> bool {
    distinct_keys(es) && forall|i: int|
        0 <= i < es.len() ==> #[trigger] writable_key(es[i].0) && writable_value(es[i].1)
}

/// A configuration the writer emits reversibly.
pub open spec fn writable_config(m: ConfigModel) -> bool {
    writable_value(m.host) && writable_value(m.root_dir) && writable_value(m.index_file)
        && writable_entries(m.routes) && writable_entries(m.content_types)
}

/// The concrete bytes of the literals of the configuration format.
proof fn lemma_literals()
    ensures
        "server:".spec_bytes() == seq![115u8, 101u8, 114u8, 118u8, 101u8, 114u8, 58u8],
        "static:".spec_bytes() == seq![115u8, 116u8, 97u8, 116u8, 105u8, 99u8, 58u8],
        "content_types:".spec_bytes() == seq![
            99u8, 111u8, 110u8, 116u8, 101u8, 110u8, 116u8, 95u8, 116u8, 121u8, 112u8, 101u8,
            115u8, 58u8,
        ],
        "  ".spec_bytes() == seq![32u8, 32u8],
        "    ".spec_bytes() == seq![32u8, 32u8, 32u8, 32u8],
        "host: ".spec_bytes() == seq![104u8, 111u8, 115u8, 116u8, 58u8, 32u8],
        "port: ".spec_bytes() == seq![112u8, 111u8, 114u8, 116u8, 58u8, 32u8],
        "root_dir: ".spec_bytes() == seq![
            114u8, 111u8, 111u8, 116u8, 95u8, 100u8, 105u8, 114u8, 58u8, 32u8,
        ],
        "index_file: ".spec_bytes() == seq![
            105u8, 110u8, 100u8, 101u8, 120u8, 95u8, 102u8, 105u8, 108u8, 101u8, 58u8, 32u8,
        ],
        "auto_index: ".spec_bytes() == seq![
            97u8, 117u8, 116u8, 111u8, 95u8, 105u8, 110u8, 100u8, 101u8, 120u8, 58u8, 32u8,
        ],
        "routes:".spec_bytes() == seq![114u8, 111u8, 117u8, 116u8, 101u8, 115u8, 58u8],
        "host:".spec_bytes() == seq![104u8, 111u8, 115u8, 116u8, 58u8],
        "port:".spec_bytes() == seq![112u8, 111u8, 114u8, 116u8, 58u8],
        "root_dir:".spec_bytes() == seq![114u8, 111u8, 111u8, 116u8, 95u8, 100u8, 105u8, 114u8, 58u8],
        "index_file:".spec_bytes() == seq![
            105u8, 110u8, 100u8, 101u8, 120u8, 95u8, 102u8, 105u8, 108u8, 101u8, 58u8,
        ],
        "auto_index:".spec_bytes() == seq![
            97u8, 117u8, 116u8, 111u8, 95u8, 105u8, 110u8, 100u8, 101u8, 120u8, 58u8,
        ],
        "true".spec_bytes() == seq![116u8, 114u8, 117u8, 101u8],
        "false".spec_bytes() == seq![102u8, 97u8, 108u8, 115u8, 101u8],
        ": ".spec_bytes() == seq![58u8, 32u8],
{
    reveal_strlit("server:");
    reveal_strlit("static:");
    reveal_strlit("content_types:");
    reveal_strlit("  ");
    reveal_strlit("    ");
    reveal_strlit("host: ");
    reveal_strlit("port: ");
    reveal_strlit("root_dir: ");
    reveal_strlit("index_file: ");
    reveal_strlit("auto_index: ");
    reveal_strlit("routes:");
    reveal_strlit("host:");
    reveal_strlit("port:");
    reveal_strlit("root_dir:");
    reveal_strlit("index_file:");
    reveal_strlit("auto_index:");
    reveal_strlit("true");
    reveal_strlit("false");
    reveal_strlit(": ");
    crate::text::lemma_ascii_str_bytes("server:");
    crate::text::lemma_ascii_str_bytes("static:");
    crate::text::lemma_ascii_str_bytes("content_types:");
    crate::text::lemma_ascii_str_bytes("  ");
    crate::text::lemma_ascii_str_bytes("    ");
    crate::text::lemma_ascii_str_bytes("host: ");
    crate::text::lemma_ascii_str_bytes("port: ");
    crate::text::lemma_ascii_str_bytes("root_dir: ");
    crate::text::lemma_ascii_str_bytes("index_file: ");
    crate::text::lemma_ascii_str_bytes("auto_index: ");
    crate::text::lemma_ascii_str_bytes("routes:");
    crate::text::lemma_ascii_str_bytes("host:");
    crate::text::lemma_ascii_str_bytes("port:");
    crate::text::lemma_ascii_str_bytes("root_dir:");
    crate::text::lemma_ascii_str_bytes("index_file:");
    crate::text::lemma_ascii_str_bytes("auto_index:");
    crate::text::lemma_ascii_str_bytes("true");
    crate::text::lemma_ascii_str_bytes("false");
    crate::text::lemma_ascii_str_bytes(": ");
    assert("server:".spec_bytes() =~= seq![115u8, 101u8, 114u8, 118u8, 101u8, 114u8, 58u8]);
    assert("static:".spec_bytes() =~= seq![115u8, 116u8, 97u8, 116u8, 105u8, 99u8, 58u8]);
    assert("content_types:".spec_bytes() =~= seq![
        99u8, 111u8, 110u8, 116u8, 101u8, 110u8, 116u8, 95u8, 116u8, 121u8, 112u8, 101u8, 115u8,
        58u8,
    ]);
    assert("  ".spec_bytes() =~= seq![32u8, 32u8]);
    assert("    ".spec_bytes() =~= seq![32u8, 32u8, 32u8, 32u8]);
    assert("host: ".spec_bytes() =~= seq![104u8, 111u8, 115u8, 116u8, 58u8, 32u8]);
    assert("port: ".spec_bytes() =~= seq![112u8, 111u8, 114u8, 116u8, 58u8, 32u8]);
    assert("root_dir: ".spec_bytes() =~= seq![
        114u8, 111u8, 111u8, 116u8, 95u8, 100u8, 105u8, 114u8, 58u8, 32u8,
    ]);
    assert("index_file: ".spec_bytes() =~= seq![
        105u8, 110u8, 100u8, 101u8, 120u8, 95u8, 102u8, 105u8, 108u8, 101u8, 58u8, 32u8,
    ]);
    assert("auto_index: ".spec_bytes() =~= seq![
        97u8, 117u8, 116u8, 111u8, 95u8, 105u8, 110u8, 100u8, 101u8, 120u8, 58u8, 32u8,
    ]);
    assert("routes:".spec_bytes() =~= seq![114u8, 111u8, 117u8, 116u8, 101u8, 115u8, 58u8]);
    assert("host:".spec_bytes() =~= seq![104u8, 111u8, 115u8, 116u8, 58u8]);
    assert("port:".spec_bytes() =~= seq![112u8, 111u8, 114u8, 116u8, 58u8]);
    assert("root_dir:".spec_bytes() =~= seq![
        114u8, 111u8, 111u8, 116u8, 95u8, 100u8, 105u8, 114u8, 58u8,
    ]);
    assert("index_file:".spec_bytes() =~= seq![
        105u8, 110u8, 100u8, 101u8, 120u8, 95u8, 102u8, 105u8, 108u8, 101u8, 58u8,
    ]);
    assert("auto_index:".spec_bytes() =~= seq![
        97u8, 117u8, 116u8, 111u8, 95u8, 105u8, 110u8, 100u8, 101u8, 120u8, 58u8,
    ]);
    assert("true".spec_bytes() =~= seq![116u8, 114u8, 117u8, 101u8]);
    assert("false".spec_bytes() =~= seq![102u8, 97u8, 108u8, 115u8, 101u8]);
    assert(": ".spec_bytes() =~= seq![58u8, 32u8]);
}

/// The concrete bytes of the separators alone.
proof fn lemma_literals_small()
    ensures
        "  ".spec_bytes() == seq![32u8, 32u8],
        "    ".spec_bytes() == seq![32u8, 32u8, 32u8, 32u8],
        ": ".spec_bytes() == seq![58u8, 32u8],
{
    reveal_strlit("  ");
    reveal_strlit("    ");
    reveal_strlit(": ");
    crate::text::lemma_ascii_str_bytes("  ");
    crate::text::lemma_ascii_str_bytes("    ");
    crate::text::lemma_ascii_str_bytes(": ");
    assert("  ".spec_bytes() =~= seq![32u8, 32u8]);
    assert("    ".spec_bytes() =~= seq![32u8, 32u8, 32u8, 32u8]);
    assert(": ".spec_bytes() =~= seq![58u8, 32u8]);
}

/// Whitespace ahead of a non-whitespace head is exactly the prefix
/// the trim removes.
proof fn lemma_ws_prefix_concat(a: Seq<u8>, t: Seq<u8>)
    requires
        forall|i: int| 0 <= i < a.len() ==> crate::text::is_ws(#[trigger] a[i]),
        t.len() > 0,
        !crate::text::is_ws(t[0]),
    ensures
        crate::text::ws_prefix_len(a + t) == a.len(),
    decreases a.len(),
{
    if a.len() == 0 {
        assert(a + t =~= t);
    } else {
        assert((a + t)[0] == a[0]);
        assert((a + t).drop_first() =~= a.drop_first() + t);
        lemma_ws_prefix_concat(a.drop_first(), t);
    }
}

/// Trimming whitespace-indented text with non-whitespace ends yields
/// the text.
proof fn lemma_trim_indented(ind: Seq<u8>, core: Seq<u8>)
    requires
        forall|i: int| 0 <= i < ind.len() ==> crate::text::is_ws(#[trigger] ind[i]),
        core.len() > 0,
        !crate::text::is_ws(core[0]),
        !crate::text::is_ws(core[core.len() - 1]),
    ensures
        spec_trim(ind + core) == core,
{
    let s = ind + core;
    lemma_ws_prefix_concat(ind, core);
    assert(s.skip(ind.len() as int) =~= core);
    assert(crate::text::ws_suffix_len(core) == 0);
    assert(core.take(core.len() as int) =~= core);
}

/// Trimming text with non-whitespace ends yields the text itself.
proof fn lemma_trim_plain(core: Seq<u8>)
    requires
        core.len() > 0,
        !crate::text::is_ws(core[0]),
        !crate::text::is_ws(core[core.len() - 1]),
    ensures
        spec_trim(core) == core,
{
    lemma_trim_indented(Seq::<u8>::empty(), core);
    assert(Seq::<u8>::empty() + core =~= core);
}

/// A key that equals its own trim has no whitespace at either end.
proof fn lemma_trim_fixed_ends(k: Seq<u8>)
    requires
        spec_trim(k) == k,
        k.len() > 0,
    ensures
        !crate::text::is_ws(k[0]),
        !crate::text::is_ws(k[k.len() - 1]),
{
    crate::text::lemma_ws_prefix_len_bound(k);
    if crate::text::is_ws(k[0]) {
        crate::text::lemma_ws_prefix_len_bound(k.drop_first());
        assert(crate::text::ws_prefix_len(k) == 1 + crate::text::ws_prefix_len(k.drop_first()));
        let t = k.skip(crate::text::ws_prefix_len(k));
        crate::text::lemma_ws_suffix_len_bound(t);
        assert(spec_trim(k).len() <= t.len());
        assert(t.len() <= k.len() - 1);
        assert(false);
    }
    assert(crate::text::ws_prefix_len(k) == 0);
    assert(k.skip(0) =~= k);
    if crate::text::is_ws(k[k.len() - 1]) {
        crate::text::lemma_ws_suffix_len_bound(k.drop_last());
        assert(crate::text::ws_suffix_len(k) == 1 + crate::text::ws_suffix_len(k.drop_last()));
        crate::text::lemma_ws_suffix_len_bound(k);
        assert(spec_trim(k).len() <= k.len() - 1);
        assert(false);
    }
}

/// Extracting the value of an emitted quoted entry gives the value
/// back.
proof fn lemma_extract_quoted(pre: Seq<u8>, v: Seq<u8>, ci: int)
    requires
        0 <= ci,
        ci + 2 == pre.len(),
        pre[ci] == 58,
        pre[ci + 1] == 32,
        forall|j: int| 0 <= j < ci ==> pre[j] != 58,
    ensures
        spec_extract_value(pre + spec_quote(v)) == Ok::<Seq<u8>, Seq<u8>>(v),
{
    let t = pre + spec_quote(v);
    assert(t[ci] == 58);
    assert(forall|j: int| 0 <= j < ci ==> t[j] == pre[j]);
    crate::text::lemma_find_first_is(t, 58, ci);
    assert(t.skip(ci + 1) =~= seq![32u8] + spec_quote(v));
    assert(spec_quote(v)[0] == 34);
    assert(spec_quote(v)[spec_quote(v).len() - 1] == 34);
    lemma_trim_indented(seq![32u8], spec_quote(v));
    assert(spec_strip_quotes(spec_quote(v)) =~= v);
}

/// Extracting the value of an emitted unquoted entry gives the text
/// back, provided it does not look like a quoted value.
proof fn lemma_extract_unquoted(pre: Seq<u8>, w: Seq<u8>, ci: int)
    requires
        0 <= ci,
        ci + 2 == pre.len(),
        pre[ci] == 58,
        pre[ci + 1] == 32,
        forall|j: int| 0 <= j < ci ==> pre[j] != 58,
        w.len() > 0,
        !crate::text::is_ws(w[0]),
        !crate::text::is_ws(w[w.len() - 1]),
        w[0] != 34,
    ensures
        spec_extract_value(pre + w) == Ok::<Seq<u8>, Seq<u8>>(w),
{
    let t = pre + w;
    assert(t[ci] == 58);
    assert(forall|j: int| 0 <= j < ci ==> t[j] == pre[j]);
    crate::text::lemma_find_first_is(t, 58, ci);
    assert(t.skip(ci + 1) =~= seq![32u8] + w);
    lemma_trim_indented(seq![32u8], w);
}

/// Splitting an emitted entry line (already trimmed) yields its key
/// and value.
proof fn lemma_key_value_of_entry(k: Seq<u8>, v: Seq<u8>)
    requires
        writable_key(k),
    ensures
        spec_key_value(k + ": ".spec_bytes() + spec_quote(v)) == Some((k, v)),
{
    lemma_literals_small();
    let t = k + ": ".spec_bytes() + spec_quote(v);
    assert(t[k.len() as int] == 58);
    assert(forall|j: int| 0 <= j < k.len() ==> t[j] == k[j]);
    crate::text::lemma_find_first_is(t, 58, k.len() as int);
    assert(t.take(k.len() as int) =~= k);
    assert(t.skip(k.len() as int + 1) =~= seq![32u8] + spec_quote(v));
    assert(spec_quote(v)[0] == 34);
    assert(spec_quote(v)[spec_quote(v).len() - 1] == 34);
    lemma_trim_indented(seq![32u8], spec_quote(v));
    assert(spec_strip_quotes(spec_quote(v)) =~= v);
}

/// Splitting a joined line list recovers the lines, provided no line
/// holds a newline or ends in a carriage return.
proof fn lemma_lines_of_join(lines: Seq<Seq<u8>>)
    requires
        forall|i: int| #![auto]
            0 <= i < lines.len() ==> no_byte(lines[i], 10) && (lines[i].len() == 0
                || lines[i][lines[i].len() - 1] != 13),
    ensures
        spec_lines(spec_join_lines(lines)) == lines,
    decreases lines.len(),
{
    if lines.len() == 0 {
    } else {
        let l0 = lines[0];
        let rest = spec_join_lines(lines.drop_first());
        let s = l0 + seq![10u8] + rest;
        assert(spec_join_lines(lines) == s);
        assert(s[l0.len() as int] == 10);
        assert(forall|j: int| 0 <= j < l0.len() ==> s[j] == l0[j]);
        crate::text::lemma_find_first_is(s, 10, l0.len() as int);
        assert(s.len() > 0);
        assert(s.take(l0.len() as int) =~= l0);
        assert(strip_cr(l0) == l0);
        assert(s.skip(l0.len() as int + 1) =~= rest);
        lemma_lines_of_join(lines.drop_first());
        assert(spec_lines(s) == seq![l0] + lines.drop_first());
        assert(seq![l0] + lines.drop_first() =~= lines);
    }
}

/// Running the parser over the emitted route entry lines inserts
/// exactly those entries, in order.
#[verifier::rlimit(100)]
proof fn lemma_run_route_entries(
    es: Seq<(Seq<u8>, Seq<u8>)>,
    j: int,
    m: ConfigModel,
    rest: Seq<Seq<u8>>,
)
    requires
        writable_entries(es),
        0 <= j <= es.len(),
        m.routes == es.take(j),
    ensures
        spec_run_lines(
            spec_entry_lines("    ".spec_bytes(), es).skip(j) + rest,
            Section::Routes,
            m,
        ) == spec_run_lines(rest, Section::Routes, ConfigModel { routes: es, ..m }),
    decreases es.len() - j,
{
    lemma_literals_small();
    let el = spec_entry_lines("    ".spec_bytes(), es);
    if j == es.len() {
        assert(el.skip(j) =~= Seq::<Seq<u8>>::empty());
        assert(el.skip(j) + rest =~= rest);
        assert(es.take(j) =~= es);
        assert(ConfigModel { routes: es, ..m } == m);
    } else {
        let k = es[j].0;
        let v = es[j].1;
        assert(writable_key(es[j].0) && writable_value(es[j].1));
        let line = spec_entry_line("    ".spec_bytes(), k, v);
        let ll = el.skip(j) + rest;
        assert(ll[0] == el[j]);
        assert(el[j] == line);
        let core = k + ": ".spec_bytes() + spec_quote(v);
        assert(line =~= "    ".spec_bytes() + core);
        assert(line.subrange(0, 4) =~= "    ".spec_bytes());
        assert(is_prefix("    ".spec_bytes(), line));
        if k.len() > 0 {
            lemma_trim_fixed_ends(k);
            assert(core[0] == k[0]);
        } else {
            assert(core[0] == 58);
        }
        assert(core[core.len() - 1] == 34);
        lemma_trim_indented("    ".spec_bytes(), core);
        assert(spec_trim(line) == core);
        lemma_key_value_of_entry(k, v);
        crate::bytemap::lemma_assoc(es.take(j), k);
        if assoc_has(es.take(j), k) {
            let n = crate::bytemap::assoc_index(es.take(j), k);
            assert(es.take(j)[n] == es[n]);
            assert(es[n].0 == es[j].0);
            assert(false);
        }
        let m2 = ConfigModel { routes: assoc_insert(m.routes, k, v), ..m };
        assert(m2.routes =~= es.take(j + 1));
        assert(spec_step(Section::Routes, line, m) == Ok::<(Section, ConfigModel), Seq<u8>>(
            (Section::Routes, m2),
        ));
        assert(ll.drop_first() =~= el.skip(j + 1) + rest);
        lemma_run_route_entries(es, j + 1, ConfigModel { routes: es.take(j + 1), ..m }, rest);
        assert(m2 == ConfigModel { routes: es.take(j + 1), ..m });
    }
}

/// Running the parser over the emitted content-type entry lines
/// inserts exactly those entries, in order.
#[verifier::rlimit(100)]
proof fn lemma_run_ctype_entries(
    es: Seq<(Seq<u8>, Seq<u8>)>,
    j: int,
    m: ConfigModel,
    rest: Seq<Seq<u8>>,
)
    requires
        writable_entries(es),
        0 <= j <= es.len(),
        m.content_types == es.take(j),
    ensures
        spec_run_lines(
            spec_entry_lines("  ".spec_bytes(), es).skip(j) + rest,
            Section::ContentTypes,
            m,
        ) == spec_run_lines(rest, Section::ContentTypes, ConfigModel { content_types: es, ..m }),
    decreases es.len() - j,
{
    lemma_literals_small();
    let el = spec_entry_lines("  ".spec_bytes(), es);
    if j == es.len() {
        assert(el.skip(j) =~= Seq::<Seq<u8>>::empty());
        assert(el.skip(j) + rest =~= rest);
        assert(es.take(j) =~= es);
        assert(ConfigModel { content_types: es, ..m } == m);
    } else {
        let k = es[j].0;
        let v = es[j].1;
        assert(writable_key(es[j].0) && writable_value(es[j].1));
        let line = spec_entry_line("  ".spec_bytes(), k, v);
        let ll = el.skip(j) + rest;
        assert(ll[0] == el[j]);
        assert(el[j] == line);
        let core = k + ": ".spec_bytes() + spec_quote(v);
        assert(line =~= "  ".spec_bytes() + core);
        assert(line.subrange(0, 2) =~= "  ".spec_bytes());
        assert(is_prefix("  ".spec_bytes(), line));
        if k.len() > 0 {
            lemma_trim_fixed_ends(k);
            assert(core[0] == k[0]);
        } else {
            assert(core[0] == 58);
        }
        assert(core[core.len() - 1] == 34);
        lemma_trim_indented("  ".spec_bytes(), core);
        assert(spec_trim(line) == core);
        lemma_key_value_of_entry(k, v);
        crate::bytemap::lemma_assoc(es.take(j), k);
        if assoc_has(es.take(j), k) {
            let n = crate::bytemap::assoc_index(es.take(j), k);
            assert(es.take(j)[n] == es[n]);
            assert(es[n].0 == es[j].0);
            assert(false);
        }
        let m2 = ConfigModel { content_types: assoc_insert(m.content_types, k, v), ..m };
        assert(m2.content_types =~= es.take(j + 1));
        assert(spec_step(Section::ContentTypes, line, m) == Ok::<(Section, ConfigModel), Seq<u8>>(
            (Section::ContentTypes, m2),
        ));
        assert(ll.drop_first() =~= el.skip(j + 1) + rest);
        lemma_run_ctype_entries(es, j + 1, ConfigModel { content_types: es.take(j + 1), ..m }, rest);
        assert(m2 == ConfigModel { content_types: es.take(j + 1), ..m });
    }
}



/// One emitted line at top level: the `server:` header.
proof fn lemma_step_server_header(m0: ConfigModel)
    ensures
        spec_step(Section::Top, "server:".spec_bytes(), m0) == Ok::<
            (Section, ConfigModel),
            Seq<u8>,
        >((Section::Server, m0)),
{
    lemma_literals();
    let l = "server:".spec_bytes();
    lemma_trim_plain(l);
    assert(l.subrange(0, 7) =~= l);
    assert(is_prefix("server:".spec_bytes(), l));
}

/// One emitted line at top level: the `static:` header.
proof fn lemma_step_static_header(m0: ConfigModel)
    ensures
        spec_step(Section::Top, "static:".spec_bytes(), m0) == Ok::<
            (Section, ConfigModel),
            Seq<u8>,
        >((Section::Static, m0)),
{
    lemma_literals();
    let l = "static:".spec_bytes();
    lemma_trim_plain(l);
    assert(!is_prefix("server:".spec_bytes(), l)) by {
        if is_prefix("server:".spec_bytes(), l) {
            assert(l.subrange(0, 7)[1] == l[1]);
        }
    }
    assert(l.subrange(0, 7) =~= l);
    assert(is_prefix("static:".spec_bytes(), l));
}

/// One emitted line at top level: the `content_types:` header.
proof fn lemma_step_ctypes_header(m0: ConfigModel)
    ensures
        spec_step(Section::Top, "content_types:".spec_bytes(), m0) == Ok::<
            (Section, ConfigModel),
            Seq<u8>,
        >((Section::ContentTypes, m0)),
{
    lemma_literals();
    let l = "content_types:".spec_bytes();
    lemma_trim_plain(l);
    assert(!is_prefix("server:".spec_bytes(), l)) by {
        if is_prefix("server:".spec_bytes(), l) {
            assert(l.subrange(0, 7)[0] == l[0]);
        }
    }
    assert(!is_prefix("static:".spec_bytes(), l)) by {
        if is_prefix("static:".spec_bytes(), l) {
            assert(l.subrange(0, 7)[0] == l[0]);
        }
    }
    assert(l.subrange(0, 14) =~= l);
    assert(is_prefix("content_types:".spec_bytes(), l));
}

/// One emitted line: the quoted `host` entry inside `server:`.
proof fn lemma_step_host_line(v: Seq<u8>, m0: ConfigModel)
    ensures
        spec_step(
            Section::Server,
            "  ".spec_bytes() + "host: ".spec_bytes() + spec_quote(v),
            m0,
        ) == Ok::<(Section, ConfigModel), Seq<u8>>((Section::Server, ConfigModel { host: v, ..m0 })),
{
    lemma_literals();
    let l = "  ".spec_bytes() + "host: ".spec_bytes() + spec_quote(v);
    let core = "host: ".spec_bytes() + spec_quote(v);
    assert(l =~= "  ".spec_bytes() + core);
    assert(l.subrange(0, 2) =~= "  ".spec_bytes());
    assert(is_prefix("  ".spec_bytes(), l));
    assert(core[0] == 104);
    assert(core[core.len() - 1] == 34);
    lemma_trim_indented("  ".spec_bytes(), core);
    assert(spec_trim(l) == core);
    assert(core.subrange(0, 5) =~= "host:".spec_bytes());
    assert(is_prefix("host:".spec_bytes(), core));
    lemma_extract_quoted("host: ".spec_bytes(), v, 4);
}

/// One emitted line: the `port` entry inside `server:`.
proof fn lemma_step_port_line(p: u16, m0: ConfigModel)
    ensures
        spec_step(
            Section::Server,
            "  ".spec_bytes() + "port: ".spec_bytes() + crate::text::dec_repr(p as nat),
            m0,
        ) == Ok::<(Section, ConfigModel), Seq<u8>>((Section::Server, ConfigModel { port: p, ..m0 })),
{
    lemma_literals();
    crate::text::lemma_dec_repr_value(p as nat);
    let digits = crate::text::dec_repr(p as nat);
    let l = "  ".spec_bytes() + "port: ".spec_bytes() + digits;
    let core = "port: ".spec_bytes() + digits;
    assert(l =~= "  ".spec_bytes() + core);
    assert(l.subrange(0, 2) =~= "  ".spec_bytes());
    assert(is_prefix("  ".spec_bytes(), l));
    assert(crate::text::is_digit(digits[digits.len() - 1]));
    assert(core[0] == 112);
    assert(core[core.len() - 1] == digits[digits.len() - 1]);
    lemma_trim_indented("  ".spec_bytes(), core);
    assert(spec_trim(l) == core);
    assert(!is_prefix("host:".spec_bytes(), core)) by {
        if is_prefix("host:".spec_bytes(), core) {
            assert(core.subrange(0, 5)[0] == core[0]);
        }
    }
    assert(core.subrange(0, 5) =~= "port:".spec_bytes());
    assert(is_prefix("port:".spec_bytes(), core));
    assert(crate::text::is_digit(digits[0]));
    lemma_extract_unquoted("port: ".spec_bytes(), digits, 4);
    assert(digits_part(digits) == digits);
    assert(is_valid_uint(digits));
    assert(dec_value(digits_part(digits)) == p as nat);
}

/// A blank line ends the `server:` section.
proof fn lemma_step_blank_server(m0: ConfigModel)
    ensures
        spec_step(Section::Server, Seq::<u8>::empty(), m0) == Ok::<
            (Section, ConfigModel),
            Seq<u8>,
        >((Section::Top, m0)),
{
    lemma_literals();
    assert(!is_prefix("  ".spec_bytes(), Seq::<u8>::empty()));
}

/// A blank line ends the routes block and the `static:` section.
proof fn lemma_step_blank_routes(m0: ConfigModel)
    ensures
        spec_step(Section::Routes, Seq::<u8>::empty(), m0) == Ok::<
            (Section, ConfigModel),
            Seq<u8>,
        >((Section::Top, m0)),
{
    lemma_literals();
    assert(!is_prefix("    ".spec_bytes(), Seq::<u8>::empty()));
    assert(!is_prefix("  ".spec_bytes(), Seq::<u8>::empty()));
}

/// One emitted line: the quoted `root_dir` entry inside `static:`.
proof fn lemma_step_root_dir_line(v: Seq<u8>, m0: ConfigModel)
    ensures
        spec_step(
            Section::Static,
            "  ".spec_bytes() + "root_dir: ".spec_bytes() + spec_quote(v),
            m0,
        ) == Ok::<(Section, ConfigModel), Seq<u8>>(
            (Section::Static, ConfigModel { root_dir: v, ..m0 }),
        ),
{
    lemma_literals();
    let l = "  ".spec_bytes() + "root_dir: ".spec_bytes() + spec_quote(v);
    let core = "root_dir: ".spec_bytes() + spec_quote(v);
    assert(l =~= "  ".spec_bytes() + core);
    assert(l.subrange(0, 2) =~= "  ".spec_bytes());
    assert(is_prefix("  ".spec_bytes(), l));
    assert(core[0] == 114);
    assert(core[core.len() - 1] == 34);
    lemma_trim_indented("  ".spec_bytes(), core);
    assert(spec_trim(l) == core);
    assert(core.subrange(0, 9) =~= "root_dir:".spec_bytes());
    assert(is_prefix("root_dir:".spec_bytes(), core));
    lemma_extract_quoted("root_dir: ".spec_bytes(), v, 8);
}

/// One emitted line: the quoted `index_file` entry inside `static:`.
proof fn lemma_step_index_file_line(v: Seq<u8>, m0: ConfigModel)
    ensures
        spec_step(
            Section::Static,
            "  ".spec_bytes() + "index_file: ".spec_bytes() + spec_quote(v),
            m0,
        ) == Ok::<(Section, ConfigModel), Seq<u8>>(
            (Section::Static, ConfigModel { index_file: v, ..m0 }),
        ),
{
    lemma_literals();
    let l = "  ".spec_bytes() + "index_file: ".spec_bytes() + spec_quote(v);
    let core = "index_file: ".spec_bytes() + spec_quote(v);
    assert(l =~= "  ".spec_bytes() + core);
    assert(l.subrange(0, 2) =~= "  ".spec_bytes());
    assert(is_prefix("  ".spec_bytes(), l));
    assert(core[0] == 105);
    assert(core[core.len() - 1] == 34);
    lemma_trim_indented("  ".spec_bytes(), core);
    assert(spec_trim(l) == core);
    assert(!is_prefix("root_dir:".spec_bytes(), core)) by {
        if is_prefix("root_dir:".spec_bytes(), core) {
            assert(core.subrange(0, 9)[0] == core[0]);
        }
    }
    assert(core.subrange(0, 11) =~= "index_file:".spec_bytes());
    assert(is_prefix("index_file:".spec_bytes(), core));
    lemma_extract_quoted("index_file: ".spec_bytes(), v, 10);
}

/// One emitted line: the `auto_index` entry inside `static:`.
proof fn lemma_step_auto_index_line(auto: bool, m0: ConfigModel)
    ensures
        spec_step(
            Section::Static,
            "  ".spec_bytes() + "auto_index: ".spec_bytes() + (if auto {
                "true".spec_bytes()
            } else {
                "false".spec_bytes()
            }),
            m0,
        ) == Ok::<(Section, ConfigModel), Seq<u8>>(
            (Section::Static, ConfigModel { auto_index: auto, ..m0 }),
        ),
{
    lemma_literals();
    let w = if auto {
        "true".spec_bytes()
    } else {
        "false".spec_bytes()
    };
    let l = "  ".spec_bytes() + "auto_index: ".spec_bytes() + w;
    let core = "auto_index: ".spec_bytes() + w;
    assert(l =~= "  ".spec_bytes() + core);
    assert(l.subrange(0, 2) =~= "  ".spec_bytes());
    assert(is_prefix("  ".spec_bytes(), l));
    assert(core[0] == 97);
    assert(w[0] == 116 || w[0] == 102);
    assert(w[w.len() - 1] == 101);
    assert(core[core.len() - 1] == 101);
    lemma_trim_indented("  ".spec_bytes(), core);
    assert(spec_trim(l) == core);
    assert(!is_prefix("root_dir:".spec_bytes(), core)) by {
        if is_prefix("root_dir:".spec_bytes(), core) {
            assert(core.subrange(0, 9)[0] == core[0]);
        }
    }
    assert(!is_prefix("index_file:".spec_bytes(), core)) by {
        if is_prefix("index_file:".spec_bytes(), core) {
            assert(core.subrange(0, 11)[0] == core[0]);
        }
    }
    assert(core.subrange(0, 11) =~= "auto_index:".spec_bytes());
    assert(is_prefix("auto_index:".spec_bytes(), core));
    lemma_extract_unquoted("auto_index: ".spec_bytes(), w, 10);
    if auto {
        assert(spec_lower(w) =~= w);
        assert(spec_lower(w) == "true".spec_bytes());
    } else {
        assert(spec_lower(w).len() == 5);
        assert(spec_lower(w) != "true".spec_bytes());
    }
}

/// One emitted line: the `routes:` block header inside `static:`.
proof fn lemma_step_routes_header(m0: ConfigModel)
    ensures
        spec_step(
            Section::Static,
            "  ".spec_bytes() + "routes:".spec_bytes(),
            m0,
        ) == Ok::<(Section, ConfigModel), Seq<u8>>((Section::Routes, m0)),
{
    lemma_literals();
    let l = "  ".spec_bytes() + "routes:".spec_bytes();
    let core = "routes:".spec_bytes();
    assert(l =~= "  ".spec_bytes() + core);
    assert(l.subrange(0, 2) =~= "  ".spec_bytes());
    assert(is_prefix("  ".spec_bytes(), l));
    assert(core[0] == 114);
    assert(core[core.len() - 1] == 58);
    lemma_trim_indented("  ".spec_bytes(), core);
    assert(spec_trim(l) == core);
    assert(!is_prefix("root_dir:".spec_bytes(), core));
    assert(!is_prefix("index_file:".spec_bytes(), core));
    assert(!is_prefix("auto_index:".spec_bytes(), core));
    assert(core.subrange(0, 7) =~= "routes:".spec_bytes());
    assert(is_prefix("routes:".spec_bytes(), core));
}



/// Every emitted configuration line is newline-free and does not end
/// in a carriage return.
#[verifier::rlimit(100)]
proof fn lemma_config_lines_clean(m: ConfigModel)
    requires
        writable_config(m),
    ensures
        forall|i: int| #![auto]
            0 <= i < spec_config_lines(m).len() ==> no_byte(spec_config_lines(m)[i], 10) && (
            spec_config_lines(m)[i].len() == 0 || spec_config_lines(m)[i][spec_config_lines(
                m,
            )[i].len() - 1] != 13),
{
    lemma_literals();
    crate::text::lemma_dec_repr_value(m.port as nat);
    let lines = spec_config_lines(m);
    let rt = spec_entry_lines("    ".spec_bytes(), m.routes);
    let ct = spec_entry_lines("  ".spec_bytes(), m.content_types);
    let l0 = "server:".spec_bytes();
    let l1 = "  ".spec_bytes() + "host: ".spec_bytes() + spec_quote(m.host);
    let l2 = "  ".spec_bytes() + "port: ".spec_bytes() + crate::text::dec_repr(m.port as nat);
    let le = Seq::<u8>::empty();
    let l4 = "static:".spec_bytes();
    let l5 = "  ".spec_bytes() + "root_dir: ".spec_bytes() + spec_quote(m.root_dir);
    let l6 = "  ".spec_bytes() + "index_file: ".spec_bytes() + spec_quote(m.index_file);
    let l7 = "  ".spec_bytes() + "auto_index: ".spec_bytes() + (if m.auto_index {
        "true".spec_bytes()
    } else {
        "false".spec_bytes()
    });
    let l8 = "  ".spec_bytes() + "routes:".spec_bytes();
    let lc = "content_types:".spec_bytes();
    assert(no_byte(le, 10) && no_byte(l0, 10) && no_byte(l4, 10) && no_byte(lc, 10));
    assert(no_byte(spec_quote(m.host), 10));
    assert(no_byte(spec_quote(m.root_dir), 10));
    assert(no_byte(spec_quote(m.index_file), 10));
    assert(no_byte(crate::text::dec_repr(m.port as nat), 10)) by {
        assert(crate::text::all_digits(crate::text::dec_repr(m.port as nat)));
    }
    assert(no_byte(l1, 10) && no_byte(l2, 10) && no_byte(l5, 10) && no_byte(l6, 10) && no_byte(
        l7,
        10,
    ) && no_byte(l8, 10));
    assert(l0[l0.len() - 1] == 58 && l4[l4.len() - 1] == 58 && lc[lc.len() - 1] == 58);
    assert(l1[l1.len() - 1] == 34 && l5[l5.len() - 1] == 34 && l6[l6.len() - 1] == 34);
    assert(crate::text::is_digit(crate::text::dec_repr(m.port as nat)[crate::text::dec_repr(
        m.port as nat,
    ).len() - 1]));
    assert(l2[l2.len() - 1] != 13);
    assert(l7[l7.len() - 1] == 101);
    assert(l8[l8.len() - 1] == 58);
    assert forall|i: int| 0 <= i < lines.len() implies no_byte(#[trigger] lines[i], 10) && (
    lines[i].len() == 0 || lines[i][lines[i].len() - 1] != 13) by {
        if i < 9 {
            assert(lines[0] == l0 && lines[1] == l1 && lines[2] == l2 && lines[3] == le
                && lines[4] == l4 && lines[5] == l5 && lines[6] == l6 && lines[7] == l7
                && lines[8] == l8);
        } else if i < 9 + rt.len() {
            let j = i - 9;
            assert(lines[i] == rt[j]);
            assert(rt[j] == spec_entry_line("    ".spec_bytes(), m.routes[j].0, m.routes[j].1));
            assert(writable_key(m.routes[j].0) && writable_value(m.routes[j].1));
            assert(no_byte(spec_quote(m.routes[j].1), 10));
            assert(no_byte(rt[j], 10));
            assert(rt[j][rt[j].len() - 1] == 34);
        } else if i == 9 + rt.len() {
            assert(lines[i] == le);
        } else if i == 10 + rt.len() {
            assert(lines[i] == lc);
        } else {
            let j = i - 11 - rt.len();
            assert(lines[i] == ct[j]);
            assert(ct[j] == spec_entry_line(
                "  ".spec_bytes(),
                m.content_types[j].0,
                m.content_types[j].1,
            ));
            assert(writable_key(m.content_types[j].0) && writable_value(m.content_types[j].1));
            assert(no_byte(spec_quote(m.content_types[j].1), 10));
            assert(no_byte(ct[j], 10));
            assert(ct[j][ct[j].len() - 1] == 34);
        }
    }
}

/// Running the parser over the nine emitted header lines sets the
/// server and static values and enters the routes block.
#[verifier::rlimit(100)]
#[verifier::spinoff_prover]
proof fn lemma_run_emitted_head(m: ConfigModel, rest: Seq<Seq<u8>>)
    requires
        writable_config(m),
    ensures
        spec_run_lines(
            seq![
                "server:".spec_bytes(),
                "  ".spec_bytes() + "host: ".spec_bytes() + spec_quote(m.host),
                "  ".spec_bytes() + "port: ".spec_bytes() + crate::text::dec_repr(m.port as nat),
                Seq::<u8>::empty(),
                "static:".spec_bytes(),
                "  ".spec_bytes() + "root_dir: ".spec_bytes() + spec_quote(m.root_dir),
                "  ".spec_bytes() + "index_file: ".spec_bytes() + spec_quote(m.index_file),
                "  ".spec_bytes() + "auto_index: ".spec_bytes() + (if m.auto_index {
                    "true".spec_bytes()
                } else {
                    "false".spec_bytes()
                }),
                "  ".spec_bytes() + "routes:".spec_bytes(),
            ] + rest,
            Section::Top,
            initial_model(),
        ) == spec_run_lines(
            rest,
            Section::Routes,
            ConfigModel {
                host: m.host,
                port: m.port,
                root_dir: m.root_dir,
                index_file: m.index_file,
                auto_index: m.auto_index,
                routes: Seq::empty(),
                content_types: Seq::empty(),
            },
        ),
{
    let l0 = "server:".spec_bytes();
    let l1 = "  ".spec_bytes() + "host: ".spec_bytes() + spec_quote(m.host);
    let l2 = "  ".spec_bytes() + "port: ".spec_bytes() + crate::text::dec_repr(m.port as nat);
    let le = Seq::<u8>::empty();
    let l4 = "static:".spec_bytes();
    let l5 = "  ".spec_bytes() + "root_dir: ".spec_bytes() + spec_quote(m.root_dir);
    let l6 = "  ".spec_bytes() + "index_file: ".spec_bytes() + spec_quote(m.index_file);
    let l7 = "  ".spec_bytes() + "auto_index: ".spec_bytes() + (if m.auto_index {
        "true".spec_bytes()
    } else {
        "false".spec_bytes()
    });
    let l8 = "  ".spec_bytes() + "routes:".spec_bytes();
    let s0 = seq![l0, l1, l2, le, l4, l5, l6, l7, l8] + rest;
    let s1 = seq![l1, l2, le, l4, l5, l6, l7, l8] + rest;
    let s2 = seq![l2, le, l4, l5, l6, l7, l8] + rest;
    let s3 = seq![le, l4, l5, l6, l7, l8] + rest;
    let s4 = seq![l4, l5, l6, l7, l8] + rest;
    let s5 = seq![l5, l6, l7, l8] + rest;
    let s6 = seq![l6, l7, l8] + rest;
    let s7 = seq![l7, l8] + rest;
    let s8 = seq![l8] + rest;
    let m0 = initial_model();
    let m1 = ConfigModel { host: m.host, ..m0 };
    let m2 = ConfigModel { port: m.port, ..m1 };
    let m3 = ConfigModel { root_dir: m.root_dir, ..m2 };
    let m4 = ConfigModel { index_file: m.index_file, ..m3 };
    let m5 = ConfigModel { auto_index: m.auto_index, ..m4 };

    assert(s0[0] == l0 && s0.drop_first() =~= s1);
    lemma_step_server_header(m0);
    assert(spec_run_lines(s0, Section::Top, m0) == spec_run_lines(s1, Section::Server, m0));

    assert(s1[0] == l1 && s1.drop_first() =~= s2);
    lemma_step_host_line(m.host, m0);
    assert(spec_run_lines(s1, Section::Server, m0) == spec_run_lines(s2, Section::Server, m1));

    assert(s2[0] == l2 && s2.drop_first() =~= s3);
    lemma_step_port_line(m.port, m1);
    assert(spec_run_lines(s2, Section::Server, m1) == spec_run_lines(s3, Section::Server, m2));

    assert(s3[0] == le && s3.drop_first() =~= s4);
    lemma_step_blank_server(m2);
    assert(spec_run_lines(s3, Section::Server, m2) == spec_run_lines(s4, Section::Top, m2));

    assert(s4[0] == l4 && s4.drop_first() =~= s5);
    lemma_step_static_header(m2);
    assert(spec_run_lines(s4, Section::Top, m2) == spec_run_lines(s5, Section::Static, m2));

    assert(s5[0] == l5 && s5.drop_first() =~= s6);
    lemma_step_root_dir_line(m.root_dir, m2);
    assert(spec_run_lines(s5, Section::Static, m2) == spec_run_lines(s6, Section::Static, m3));

    assert(s6[0] == l6 && s6.drop_first() =~= s7);
    lemma_step_index_file_line(m.index_file, m3);
    assert(spec_run_lines(s6, Section::Static, m3) == spec_run_lines(s7, Section::Static, m4));

    assert(s7[0] == l7 && s7.drop_first() =~= s8);
    lemma_step_auto_index_line(m.auto_index, m4);
    assert(spec_run_lines(s7, Section::Static, m4) == spec_run_lines(s8, Section::Static, m5));

    assert(s8[0] == l8 && s8.drop_first() =~= rest);
    lemma_step_routes_header(m5);
    assert(spec_run_lines(s8, Section::Static, m5) == spec_run_lines(rest, Section::Routes, m5));

    assert(m5 == ConfigModel {
        host: m.host,
        port: m.port,
        root_dir: m.root_dir,
        index_file: m.index_file,
        auto_index: m.auto_index,
        routes: Seq::empty(),
        content_types: Seq::empty(),
    });
}

/// Round trip: writing a configuration and parsing the text back
/// reproduces the same structured values.  The format cannot
/// represent a key with a newline, a colon or leading or trailing
/// whitespace, nor a value with a newline; those are excluded.
#[verifier::rlimit(100)]
pub proof fn lemma_config_round_trip(m: ConfigModel)
    requires
        writable_config(m),
    ensures
        spec_parse_config(spec_emit_config(m)) == Ok::<ConfigModel, Seq<u8>>(m),
{
    let lines = spec_config_lines(m);
    let rt = spec_entry_lines("    ".spec_bytes(), m.routes);
    let ct = spec_entry_lines("  ".spec_bytes(), m.content_types);
    let le = Seq::<u8>::empty();
    let lc = "content_types:".spec_bytes();
    lemma_config_lines_clean(m);
    lemma_lines_of_join(lines);
    assert(spec_parse_config(spec_emit_config(m)) == spec_run_lines(
        lines,
        Section::Top,
        initial_model(),
    ));
    let tail = rt + seq![le, lc] + ct;
    assert(lines =~= seq![
        "server:".spec_bytes(),
        "  ".spec_bytes() + "host: ".spec_bytes() + spec_quote(m.host),
        "  ".spec_bytes() + "port: ".spec_bytes() + crate::text::dec_repr(m.port as nat),
        Seq::<u8>::empty(),
        "static:".spec_bytes(),
        "  ".spec_bytes() + "root_dir: ".spec_bytes() + spec_quote(m.root_dir),
        "  ".spec_bytes() + "index_file: ".spec_bytes() + spec_quote(m.index_file),
        "  ".spec_bytes() + "auto_index: ".spec_bytes() + (if m.auto_index {
            "true".spec_bytes()
        } else {
            "false".spec_bytes()
        }),
        "  ".spec_bytes() + "routes:".spec_bytes(),
    ] + tail);
    lemma_run_emitted_head(m, tail);
    let m5 = ConfigModel {
        host: m.host,
        port: m.port,
        root_dir: m.root_dir,
        index_file: m.index_file,
        auto_index: m.auto_index,
        routes: Seq::empty(),
        content_types: Seq::empty(),
    };
    let m6 = ConfigModel { routes: m.routes, ..m5 };
    let m7 = ConfigModel { content_types: m.content_types, ..m6 };
    assert(spec_run_lines(lines, Section::Top, initial_model()) == spec_run_lines(
        tail,
        Section::Routes,
        m5,
    ));
    let s10 = seq![le, lc] + ct;
    assert(m5.routes =~= m.routes.take(0));
    assert(tail =~= rt.skip(0) + s10);
    lemma_run_route_entries(m.routes, 0, m5, s10);
    assert(ConfigModel { routes: m.routes, ..m5 } == m6);
    assert(spec_run_lines(tail, Section::Routes, m5) == spec_run_lines(
        s10,
        Section::Routes,
        m6,
    ));
    let s11 = seq![lc] + ct;
    assert(s10[0] == le && s10.drop_first() =~= s11);
    lemma_step_blank_routes(m6);
    assert(spec_run_lines(s10, Section::Routes, m6) == spec_run_lines(s11, Section::Top, m6));
    assert(s11[0] == lc && s11.drop_first() =~= ct);
    lemma_step_ctypes_header(m6);
    assert(spec_run_lines(s11, Section::Top, m6) == spec_run_lines(ct, Section::ContentTypes, m6));
    assert(m6.content_types =~= m.content_types.take(0));
    assert(ct =~= spec_entry_lines("  ".spec_bytes(), m.content_types).skip(0)
        + Seq::<Seq<u8>>::empty());
    lemma_run_ctype_entries(m.content_types, 0, m6, Seq::<Seq<u8>>::empty());
    assert(ConfigModel { content_types: m.content_types, ..m6 } == m7);
    assert(spec_run_lines(ct, Section::ContentTypes, m6) == spec_run_lines(
        Seq::<Seq<u8>>::empty(),
        Section::ContentTypes,
        m7,
    ));
    assert(spec_run_lines(Seq::<Seq<u8>>::empty(), Section::ContentTypes, m7) == Ok::<
        ConfigModel,
        Seq<u8>,
    >(m7));
    assert(m7 == m);
}

} // verus!