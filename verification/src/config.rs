//! The configuration file: an INI document with a `[general]` section and one
//! `[forward.*]` section per target.
use vstd::prelude::*;
use vstd::string::StringExecFns;
use crate::address::{host_part, last_index_of, port_part};
use crate::text::{
    append_chars, chars_equal, chars_of, chars_start_with, decimal, decimal_chars, parse_u16,
    parse_u16_chars, push_char, starts_with, string_from_chars,
};

verus! {

/// The properties of a section as (key, value) pairs, in file order.
pub type PropsModel = Seq<(Seq<char>, Seq<char>)>;

/// A section: its name (`None` for the nameless section before any header) and properties.
pub type SectionModel = (Option<Seq<char>>, PropsModel);

/// One section of an INI document, as plain values.
pub struct IniSection {
    pub name: Option<String>,
    pub properties: Vec<(String, String)>,
}

pub open spec fn opt_string_view(o: Option<String>) -> Option<Seq<char>> {
    match o {
        Some(s) => Some(s@),
        None => None,
    }
}

pub open spec fn pairs_view(p: Seq<(String, String)>) -> PropsModel {
    p.map_values(|kv: (String, String)| (kv.0@, kv.1@))
}

impl View for IniSection {
    type V = SectionModel;

    open spec fn view(&self) -> SectionModel {
        (opt_string_view(self.name), pairs_view(self.properties@))
    }
}

pub open spec fn sections_view(s: Seq<IniSection>) -> Seq<SectionModel> {
    s.map_values(|x: IniSection| x@)
}

pub open spec fn opt_sections_view(o: Option<Vec<IniSection>>) -> Option<Seq<SectionModel>> {
    match o {
        Some(v) => Some(sections_view(v@)),
        None => None,
    }
}

/// The sections, in file order, that the `ini` crate reads from `text`
/// (`None` when it reports a parse error). Repeated sections and keys are kept.
pub uninterp spec fn ini_load(text: Seq<char>) -> Option<Seq<SectionModel>>;

/// The text that the `ini` crate writes for `sections`, with `\r\n` line
/// endings when `crlf` holds and `\n` otherwise.
pub uninterp spec fn ini_render(sections: Seq<SectionModel>, crlf: bool) -> Seq<char>;

/// A character of a plain section name or key: an ASCII letter or digit, `_`, `-` or `.`.
pub open spec fn ini_word_char(c: char) -> bool {
    ('a' <= c && c <= 'z') || ('A' <= c && c <= 'Z') || ('0' <= c && c <= '9') || c == '_' || c
        == '-' || c == '.'
}

/// A printable ASCII character other than quotes and backslash.
pub open spec fn ini_plain_char(c: char) -> bool {
    ' ' <= c && c <= '~' && c != '"' && c != '\'' && c != '\\'
}

/// The value of a plain `key = value` line.
pub enum PlainValue {
    /// Written as is: no quotes or backslashes, no space at either end.
    Bare(Seq<char>),
    /// Written between double quotes: printable ASCII without `"` or backslash.
    Quoted(Seq<char>),
}

/// A line of plain INI text.
pub enum PlainLine {
    /// An empty line.
    Blank,
    /// `[name]`.
    Header(Seq<char>),
    /// `key`, some spaces, `=`, some spaces, the value, some spaces.
    Property { key: Seq<char>, spaces_before: nat, spaces_after: nat, value: PlainValue, trailing: nat },
}

pub open spec fn spaces(n: nat) -> Seq<char> {
    Seq::new(n, |i: int| ' ')
}

pub open spec fn plain_word(w: Seq<char>) -> bool {
    w.len() > 0 && forall|i: int| 0 <= i < w.len() ==> ini_word_char(#[trigger] w[i])
}

pub open spec fn plain_value_ok(v: PlainValue) -> bool {
    match v {
        PlainValue::Bare(t) => (forall|i: int| 0 <= i < t.len() ==> ini_plain_char(#[trigger] t[i])) && (t.len()
            > 0 ==> t[0] != ' ' && t.last() != ' '),
        PlainValue::Quoted(t) => forall|i: int| 0 <= i < t.len() ==> ini_plain_char(#[trigger] t[i]) || t[i] == '\''
            ,
    }
}

pub open spec fn plain_line_ok(l: PlainLine) -> bool {
    match l {
        PlainLine::Blank => true,
        PlainLine::Header(name) => plain_word(name),
        PlainLine::Property { key, value, .. } => plain_word(key) && plain_value_ok(value),
    }
}

pub open spec fn plain_value_text(v: PlainValue) -> Seq<char> {
    match v {
        PlainValue::Bare(t) => t,
        PlainValue::Quoted(t) => seq!['"'] + t + seq!['"'],
    }
}

pub open spec fn plain_value_of(v: PlainValue) -> Seq<char> {
    match v {
        PlainValue::Bare(t) => t,
        PlainValue::Quoted(t) => t,
    }
}

pub open spec fn plain_line_text(l: PlainLine) -> Seq<char> {
    match l {
        PlainLine::Blank => Seq::empty(),
        PlainLine::Header(name) => seq!['['] + name + seq![']'],
        PlainLine::Property { key, spaces_before, spaces_after, value, trailing } => key + spaces(spaces_before)
            + seq!['='] + spaces(spaces_after) + plain_value_text(value) + spaces(trailing),
    }
}

/// The text of plain INI lines, each ended by a line feed.
pub open spec fn plain_text(lines: Seq<PlainLine>) -> Seq<char>
    decreases lines.len(),
{
    if lines.len() == 0 {
        Seq::empty()
    } else {
        plain_text(lines.drop_last()) + plain_line_text(lines.last()) + seq!['\n']
    }
}

/// The sections of plain INI lines: the nameless section first, then one per
/// header in order; each property goes, with its value unquoted, to the
/// section of the header above it.
pub open spec fn plain_sections(lines: Seq<PlainLine>) -> Seq<SectionModel>
    decreases lines.len(),
{
    if lines.len() == 0 {
        seq![(None::<Seq<char>>, Seq::<(Seq<char>, Seq<char>)>::empty())]
    } else {
        let s = plain_sections(lines.drop_last());
        match lines.last() {
            PlainLine::Blank => s,
            PlainLine::Header(name) => s.push((Some(name), Seq::empty())),
            PlainLine::Property { key, value, .. } => s.update(
                s.len() - 1,
                (s.last().0, s.last().1.push((key, plain_value_of(value)))),
            ),
        }
    }
}

/// Quotes only delimit a value: in plain INI text, writing a property's value
/// between double quotes instead of bare gives the same sections, so the same
/// configuration loads (`ip = "192.168.1.100"` reads as `ip = 192.168.1.100`).
pub proof fn quoting_a_value_changes_nothing(
    lines: Seq<PlainLine>,
    k: int,
    key: Seq<char>,
    a: nat,
    b: nat,
    t: Seq<char>,
    c: nat,
)
    requires
        0 <= k < lines.len(),
        lines[k] == (PlainLine::Property { key, spaces_before: a, spaces_after: b, value: PlainValue::Bare(t), trailing: c }),
    ensures
        plain_sections(lines.update(
            k,
            PlainLine::Property { key, spaces_before: a, spaces_after: b, value: PlainValue::Quoted(t), trailing: c },
        )) == plain_sections(lines),
    decreases lines.len(),
{
    let q = PlainLine::Property { key, spaces_before: a, spaces_after: b, value: PlainValue::Quoted(t), trailing: c };
    let other = lines.update(k, q);
    if k == lines.len() - 1 {
        assert(other.drop_last() =~= lines.drop_last());
    } else {
        quoting_a_value_changes_nothing(lines.drop_last(), k, key, a, b, t, c);
        assert(other.drop_last() =~= lines.drop_last().update(k, q));
        assert(other.last() == lines.last());
    }
}

/// Parses INI text with `ini::Ini::load_from_str` (default options: quotes
/// and backslash escapes honoured) and lists the sections it holds, in order,
/// each with its properties in order. The result is tied to the text through
/// the name `ini_load`; for plain text (`plain_text` of well-formed lines:
/// headers, `key = value` lines with spaces around `=` and at the end, bare
/// or double-quoted values) the contract also states the sections, as the
/// crate's parser gives them: it starts from a nameless section
/// (`Ini::new`), trims keys, skips the spaces after `=`, removes the quotes
/// of a quoted value and trims a bare one, and appends each property to the
/// section of the header above it. Other inputs are left to the name.
#[verifier::external_body]
fn parse_ini(text: &str) -> (r: Option<Vec<IniSection>>)
    ensures
        opt_sections_view(r) == ini_load(text@),
        forall|lines: Seq<PlainLine>|
            (forall|i: int| 0 <= i < lines.len() ==> plain_line_ok(#[trigger] lines[i])) && text@
                == #[trigger] plain_text(lines) ==> opt_sections_view(r) == Some(plain_sections(lines)),
{
    match ini::Ini::load_from_str(text) {
        Ok(doc) => Some(doc.iter().map(|(name, props)| IniSection {
            name: name.map(|n| n.to_string()),
            properties: props.iter().map(|(k, v)| (k.to_string(), v.to_string())).collect(),
        }).collect()),
        Err(_) => None,
    }
}

/// Builds an `ini::Ini` holding `sections` (each property set with
/// `with_section(..).set(..)`) and writes it with `Ini::write_to_opt`, with the
/// crate's default escaping and the given line ending. The contract only ties
/// the text to the sections through the name `ini_render`.
#[verifier::external_body]
fn render_ini(sections: &[IniSection], crlf: bool) -> (r: String)
    ensures
        r@ == ini_render(sections_view(sections@), crlf),
{
    let mut doc = ini::Ini::new();
    for s in sections {
        let mut setter = doc.with_section(s.name.clone());
        for (k, v) in &s.properties {
            setter.set(k.as_str(), v.as_str());
        }
    }
    let line_separator = if crlf { ini::LineSeparator::CRLF } else { ini::LineSeparator::CR };
    let mut out: Vec<u8> = Vec::new();
    let _ = doc.write_to_opt(&mut out, ini::WriteOption { line_separator, ..Default::default() });
    String::from_utf8_lossy(&out).into_owned()
}

/// The line ending of a written configuration file.
#[derive(Clone, Copy, Debug, PartialEq, Eq, Structural)]
pub enum LineEnding {
    Lf,
    CrLf,
}

/// The properties of the first section named `name`.
pub open spec fn find_section(secs: Seq<SectionModel>, name: Seq<char>) -> Option<PropsModel>
    decreases secs.len(),
{
    if secs.len() == 0 {
        None
    } else if secs[0].0 == Some(name) {
        Some(secs[0].1)
    } else {
        find_section(secs.subrange(1, secs.len() as int), name)
    }
}

/// The value of the first property named `key`.
pub open spec fn get_prop(props: PropsModel, key: Seq<char>) -> Option<Seq<char>>
    decreases props.len(),
{
    if props.len() == 0 {
        None
    } else if props[0].0 == key {
        Some(props[0].1)
    } else {
        get_prop(props.subrange(1, props.len() as int), key)
    }
}

/// A loaded configuration.
pub struct Config {
    pub listen_port: u16,
    /// (address as `ip:port`, note) for each target, in file order.
    pub targets: Vec<(String, String)>,
    pub launch_on_startup: bool,
    pub minimize_to_tray: bool,
}

/// A configuration as plain values.
pub struct ConfigModel {
    pub listen_port: u16,
    pub targets: Seq<(Seq<char>, Seq<char>)>,
    pub launch_on_startup: bool,
    pub minimize_to_tray: bool,
}

impl View for Config {
    type V = ConfigModel;

    open spec fn view(&self) -> ConfigModel {
        ConfigModel {
            listen_port: self.listen_port,
            targets: pairs_view(self.targets@),
            launch_on_startup: self.launch_on_startup,
            minimize_to_tray: self.minimize_to_tray,
        }
    }
}

pub open spec fn opt_config_view(o: Option<Config>) -> Option<ConfigModel> {
    match o {
        Some(c) => Some(c@),
        None => None,
    }
}

/// The target a `[forward.*]` section describes: `ip` and `port` are required
/// (the port must be a `u16`), the note defaults to empty. The address is
/// written back as `ip:port` with the port in canonical decimal.
pub open spec fn section_target(props: PropsModel) -> Option<(Seq<char>, Seq<char>)> {
    match get_prop(props, "ip"@) {
        None => None,
        Some(ip) => match get_prop(props, "port"@) {
            None => None,
            Some(p) => match parse_u16(p) {
                None => None,
                Some(port) => Some((
                    ip + seq![':'] + decimal(port as nat),
                    match get_prop(props, "note"@) {
                        Some(note) => note,
                        None => Seq::<char>::empty(),
                    },
                )),
            },
        },
    }
}

/// The targets of the first `k` sections of `all`: each section whose name
/// starts with `forward` is read through the first section of that name.
/// Any unreadable target makes the whole list unreadable.
pub open spec fn targets_upto(all: Seq<SectionModel>, k: nat) -> Option<Seq<(Seq<char>, Seq<char>)>>
    decreases k,
{
    if k == 0 {
        Some(Seq::empty())
    } else {
        match targets_upto(all, (k - 1) as nat) {
            None => None,
            Some(ts) => match all[k - 1].0 {
                Some(n) => if starts_with(n, "forward"@) {
                    match find_section(all, n) {
                        None => None,
                        Some(props) => match section_target(props) {
                            None => None,
                            Some(t) => Some(ts.push(t)),
                        },
                    }
                } else {
                    Some(ts)
                },
                None => Some(ts),
            },
        }
    }
}

/// Once a target cannot be read, no longer prefix can be read either.
proof fn lemma_targets_none_stays(all: Seq<SectionModel>, k: nat, m: nat)
    requires
        k <= m,
        targets_upto(all, k) is None,
    ensures
        targets_upto(all, m) is None,
    decreases m - k,
{
    if k < m {
        lemma_targets_none_stays(all, k, (m - 1) as nat);
    }
}

/// The configuration that the sections describe: `[general]` must exist with a
/// `u16` `listen_port`; a flag is on when its value is exactly `true`.
pub open spec fn load_model(secs: Seq<SectionModel>) -> Option<ConfigModel> {
    match find_section(secs, "general"@) {
        None => None,
        Some(general) => match get_prop(general, "listen_port"@) {
            None => None,
            Some(p) => match parse_u16(p) {
                None => None,
                Some(port) => match targets_upto(secs, secs.len()) {
                    None => None,
                    Some(ts) => Some(ConfigModel {
                        listen_port: port,
                        targets: ts,
                        launch_on_startup: get_prop(general, "launch_on_startup"@) == Some("true"@),
                        minimize_to_tray: get_prop(general, "minimize_to_tray"@) == Some("true"@),
                    }),
                },
            },
        },
    }
}

/// Are the two strings equal?
pub fn str_eq(a: &str, b: &str) -> (r: bool)
    ensures
        r == (a@ == b@),
{
    let x = chars_of(a);
    let y = chars_of(b);
    chars_equal(x.as_slice(), y.as_slice())
}

/// The index of the first section named `name`, if any.
fn find_section_index(secs: &[IniSection], name: &str) -> (r: Option<usize>)
    ensures
        match r {
            Some(i) => i < secs@.len() && find_section(sections_view(secs@), name@) == Some(
                sections_view(secs@)[i as int].1,
            ),
            None => find_section(sections_view(secs@), name@) is None,
        },
{
    let ghost all = sections_view(secs@);
    let mut i: usize = 0;
    assert(all.subrange(0, all.len() as int) =~= all);
    while i < secs.len()
        invariant
            i <= secs@.len(),
            all == sections_view(secs@),
            find_section(all, name@) == find_section(all.subrange(i as int, all.len() as int), name@),
        decreases secs@.len() - i,
    {
        let ghost rest = all.subrange(i as int, all.len() as int);
        assert(rest[0] == all[i as int]);
        assert(rest.subrange(1, rest.len() as int) =~= all.subrange(i + 1, all.len() as int));
        let matched = match &secs[i].name {
            Some(n) => str_eq(n.as_str(), name),
            None => false,
        };
        if matched {
            return Some(i);
        }
        i = i + 1;
    }
    None
}

/// The value of the first property named `key`, if any.
fn get_property<'a>(props: &'a [(String, String)], key: &str) -> (r: Option<&'a String>)
    ensures
        match r {
            Some(v) => get_prop(pairs_view(props@), key@) == Some(v@),
            None => get_prop(pairs_view(props@), key@) is None,
        },
{
    let ghost all = pairs_view(props@);
    let mut i: usize = 0;
    assert(all.subrange(0, all.len() as int) =~= all);
    while i < props.len()
        invariant
            i <= props@.len(),
            all == pairs_view(props@),
            get_prop(all, key@) == get_prop(all.subrange(i as int, all.len() as int), key@),
        decreases props@.len() - i,
    {
        let ghost rest = all.subrange(i as int, all.len() as int);
        assert(rest[0] == all[i as int]);
        assert(rest.subrange(1, rest.len() as int) =~= all.subrange(i + 1, all.len() as int));
        if str_eq(props[i].0.as_str(), key) {
            return Some(&props[i].1);
        }
        i = i + 1;
    }
    None
}

/// Reads the target of one `[forward.*]` section.
fn read_target(props: &[(String, String)]) -> (r: Option<(String, String)>)
    ensures
        match r {
            Some(t) => section_target(pairs_view(props@)) == Some((t.0@, t.1@)),
            None => section_target(pairs_view(props@)) is None,
        },
{
    let ip = match get_property(props, "ip") {
        Some(ip) => ip,
        None => {
            return None;
        },
    };
    let port_text = match get_property(props, "port") {
        Some(p) => p,
        None => {
            return None;
        },
    };
    let port_chars = chars_of(port_text.as_str());
    let port = match parse_u16_chars(port_chars.as_slice()) {
        Some(p) => p,
        None => {
            return None;
        },
    };
    let note = match get_property(props, "note") {
        Some(n) => n.clone(),
        None => String::new(),
    };
    let mut address = String::from_str(ip.as_str());
    push_char(&mut address, ':');
    let digits = decimal_chars(port as u64);
    append_chars(&mut address, digits.as_slice());
    Some((address, note))
}

/// The configuration that INI sections describe (see `load_model`).
pub fn config_from_sections(secs: &[IniSection]) -> (r: Option<Config>)
    ensures
        opt_config_view(r) == load_model(sections_view(secs@)),
{
    let ghost all = sections_view(secs@);
    let gi = match find_section_index(secs, "general") {
        Some(g) => g,
        None => {
            return None;
        },
    };
    let general = &secs[gi].properties;
    assert(all[gi as int].1 == pairs_view(general@));
    let port_text = match get_property(general.as_slice(), "listen_port") {
        Some(p) => p,
        None => {
            return None;
        },
    };
    let port_chars = chars_of(port_text.as_str());
    let listen_port = match parse_u16_chars(port_chars.as_slice()) {
        Some(p) => p,
        None => {
            return None;
        },
    };
    let launch_on_startup = match get_property(general.as_slice(), "launch_on_startup") {
        Some(v) => str_eq(v.as_str(), "true"),
        None => false,
    };
    let minimize_to_tray = match get_property(general.as_slice(), "minimize_to_tray") {
        Some(v) => str_eq(v.as_str(), "true"),
        None => false,
    };
    let forward = chars_of("forward");
    let mut targets: Vec<(String, String)> = Vec::new();
    let mut k: usize = 0;
    while k < secs.len()
        invariant
            k <= secs@.len(),
            all == sections_view(secs@),
            forward@ == "forward"@,
            targets_upto(all, k as nat) == Some(pairs_view(targets@)),
        decreases secs@.len() - k,
    {
        assert(all[k as int] == secs@[k as int]@);
        match &secs[k].name {
            Some(n) => {
                let name_chars = chars_of(n.as_str());
                if chars_start_with(name_chars.as_slice(), forward.as_slice()) {
                    let si = match find_section_index(secs, n.as_str()) {
                        Some(si) => si,
                        None => {
                            proof {
                                lemma_targets_none_stays(all, (k + 1) as nat, all.len());
                            }
                            return None;
                        },
                    };
                    assert(all[si as int].1 == pairs_view(secs@[si as int].properties@));
                    let t = match read_target(secs[si].properties.as_slice()) {
                        Some(t) => t,
                        None => {
                            proof {
                                lemma_targets_none_stays(all, (k + 1) as nat, all.len());
                            }
                            return None;
                        },
                    };
                    let ghost before = pairs_view(targets@);
                    targets.push(t);
                    assert(pairs_view(targets@) =~= before.push((t.0@, t.1@)));
                }
            },
            None => {},
        }
        k = k + 1;
    }
    assert(all.len() == secs@.len());
    Some(Config { listen_port, targets, launch_on_startup, minimize_to_tray })
}

/// Reads a configuration from INI text (the text of the file, without a
/// byte-order mark): `None` when the text does not parse or does not describe
/// a configuration (see `load_model`).
pub fn load_config(text: &str) -> (r: Option<Config>)
    ensures
        opt_config_view(r) == match ini_load(text@) {
            Some(secs) => load_model(secs),
            None => None,
        },
        forall|lines: Seq<PlainLine>|
            (forall|i: int| 0 <= i < lines.len() ==> plain_line_ok(#[trigger] lines[i])) && text@
                == #[trigger] plain_text(lines) ==> opt_config_view(r) == load_model(plain_sections(lines)),
{
    match parse_ini(text) {
        Some(secs) => config_from_sections(secs.as_slice()),
        None => None,
    }
}

/// The text `bool::to_string` gives.
pub open spec fn bool_text(b: bool) -> Seq<char> {
    if b { "true"@ } else { "false"@ }
}

/// The `ip` written for an address: the text before its last `:` (all of it when there is none).
pub open spec fn saved_ip(addr: Seq<char>) -> Seq<char> {
    host_part(addr)
}

/// The `port` written for an address: the text after its last `:`, or `0` when there is none.
pub open spec fn saved_port(addr: Seq<char>) -> Seq<char> {
    if last_index_of(addr, ':') >= 0 { port_part(addr) } else { "0"@ }
}

/// The name of the section for the target at position `i`: `forward.1`, `forward.2`, ...
pub open spec fn forward_section_name(i: nat) -> Seq<char> {
    "forward."@ + decimal(i + 1)
}

/// The section written for the target `t` at position `i`; an empty note is left out.
pub open spec fn target_section(i: nat, t: (Seq<char>, Seq<char>)) -> SectionModel {
    (
        Some(forward_section_name(i)),
        seq![("ip"@, saved_ip(t.0)), ("port"@, saved_port(t.0))] + if t.1.len() > 0 {
            seq![("note"@, t.1)]
        } else {
            Seq::empty()
        },
    )
}

/// The sections written for a configuration: `[general]` with the listen port
/// as entered and both flags, then one `[forward.N]` section per target, numbered from 1.
pub open spec fn save_model(
    listen_port: Seq<char>,
    targets: Seq<(Seq<char>, Seq<char>)>,
    launch_on_startup: bool,
    minimize_to_tray: bool,
) -> Seq<SectionModel> {
    seq![
        (
            Some("general"@),
            seq![
                ("listen_port"@, listen_port),
                ("launch_on_startup"@, bool_text(launch_on_startup)),
                ("minimize_to_tray"@, bool_text(minimize_to_tray)),
            ],
        ),
    ] + Seq::new(targets.len(), |i: int| target_section(i as nat, targets[i]))
}

fn text_pair(key: &str, value: String) -> (r: (String, String))
    ensures
        r.0@ == key@,
        r.1@ == value@,
{
    (String::from_str(key), value)
}

fn bool_string(b: bool) -> (r: String)
    ensures
        r@ == bool_text(b),
{
    if b { String::from_str("true") } else { String::from_str("false") }
}

/// The section for the target `(address, note)` at position `i`.
fn target_ini_section(i: usize, address: &String, note: &String) -> (r: IniSection)
    requires
        i < usize::MAX,
    ensures
        r@ == target_section(i as nat, (address@, note@)),
{
    let mut name = String::from_str("forward.");
    let number = decimal_chars((i + 1) as u64);
    append_chars(&mut name, number.as_slice());
    let a = chars_of(address.as_str());
    let n = a.len();
    let colon = crate::address::last_index(a.as_slice(), ':');
    let ip;
    let port;
    match colon {
        Some(k) => {
            assert(k < n);
            ip = string_from_chars(vstd::slice::slice_subrange(a.as_slice(), 0, k));
            port = string_from_chars(vstd::slice::slice_subrange(a.as_slice(), k + 1, n));
        },
        None => {
            ip = address.clone();
            port = String::from_str("0");
        },
    }
    let mut properties: Vec<(String, String)> = Vec::new();
    properties.push(text_pair("ip", ip));
    properties.push(text_pair("port", port));
    if !note.as_str().is_empty() {
        properties.push(text_pair("note", note.clone()));
    }
    let r = IniSection { name: Some(name), properties };
    proof {
        let expected = target_section(i as nat, (address@, note@));
        assert(pairs_view(r.properties@) =~= expected.1);
    }
    r
}

/// The INI sections that store a configuration (see `save_model`).
pub fn config_sections(
    listen_port: &str,
    targets: &[(String, String)],
    launch_on_startup: bool,
    minimize_to_tray: bool,
) -> (r: Vec<IniSection>)
    ensures
        sections_view(r@) == save_model(listen_port@, pairs_view(targets@), launch_on_startup, minimize_to_tray),
{
    let mut general: Vec<(String, String)> = Vec::new();
    general.push(text_pair("listen_port", String::from_str(listen_port)));
    general.push(text_pair("launch_on_startup", bool_string(launch_on_startup)));
    general.push(text_pair("minimize_to_tray", bool_string(minimize_to_tray)));
    let mut sections: Vec<IniSection> = Vec::new();
    sections.push(IniSection { name: Some(String::from_str("general")), properties: general });
    let ghost expected = save_model(listen_port@, pairs_view(targets@), launch_on_startup, minimize_to_tray);
    assert(pairs_view(general@) =~= expected[0].1);
    let mut i: usize = 0;
    while i < targets.len()
        invariant
            i <= targets@.len(),
            expected == save_model(listen_port@, pairs_view(targets@), launch_on_startup, minimize_to_tray),
            sections_view(sections@) == expected.subrange(0, i + 1),
        decreases targets@.len() - i,
    {
        let s = target_ini_section(i, &targets[i].0, &targets[i].1);
        let ghost before = sections_view(sections@);
        assert(pairs_view(targets@)[i as int] == (targets@[i as int].0@, targets@[i as int].1@));
        assert(expected[i + 1] == target_section(i as nat, pairs_view(targets@)[i as int]));
        sections.push(s);
        assert(sections_view(sections@) =~= before.push(s@));
        assert(expected.subrange(0, i + 2) =~= expected.subrange(0, i + 1).push(expected[i + 1]));
        assert(sections_view(sections@) =~= expected.subrange(0, i + 2));
        i = i + 1;
    }
    assert(expected.subrange(0, i + 1) =~= expected);
    sections
}

/// The text of the configuration file for the given settings: the sections
/// of `save_model` written by the `ini` crate.
pub fn render_config(
    listen_port: &str,
    targets: &[(String, String)],
    launch_on_startup: bool,
    minimize_to_tray: bool,
    line_ending: LineEnding,
) -> (r: String)
    ensures
        r@ == ini_render(
            save_model(listen_port@, pairs_view(targets@), launch_on_startup, minimize_to_tray),
            line_ending == LineEnding::CrLf,
        ),
{
    let sections = config_sections(listen_port, targets, launch_on_startup, minimize_to_tray);
    let crlf = match line_ending {
        LineEnding::CrLf => true,
        LineEnding::Lf => false,
    };
    render_ini(sections.as_slice(), crlf)
}

/// The first section carrying a name is the one `find_section` finds.
proof fn lemma_find_section_at(secs: Seq<SectionModel>, name: Seq<char>, i: int)
    requires
        0 <= i < secs.len(),
        secs[i].0 == Some(name),
        forall|j: int| 0 <= j < i ==> secs[j].0 != Some(name),
    ensures
        find_section(secs, name) == Some(secs[i].1),
    decreases i,
{
    if i > 0 {
        let rest = secs.subrange(1, secs.len() as int);
        assert(secs[0].0 != Some(name));
        assert forall|j: int| 0 <= j < i - 1 implies rest[j].0 != Some(name) by {
            assert(rest[j] == secs[j + 1]);
        }
        lemma_find_section_at(rest, name, i - 1);
    }
}

/// The first property carrying a key is the one `get_prop` finds.
proof fn lemma_get_prop_at(props: PropsModel, key: Seq<char>, i: int)
    requires
        0 <= i < props.len(),
        props[i].0 == key,
        forall|j: int| 0 <= j < i ==> props[j].0 != key,
    ensures
        get_prop(props, key) == Some(props[i].1),
    decreases i,
{
    if i > 0 {
        let rest = props.subrange(1, props.len() as int);
        assert forall|j: int| 0 <= j < i - 1 implies rest[j].0 != key by {
            assert(rest[j] == props[j + 1]);
        }
        lemma_get_prop_at(rest, key, i - 1);
    }
}

/// A key that no property carries is not found.
proof fn lemma_get_prop_absent(props: PropsModel, key: Seq<char>)
    requires
        forall|j: int| 0 <= j < props.len() ==> props[j].0 != key,
    ensures
        get_prop(props, key) is None,
    decreases props.len(),
{
    if props.len() > 0 {
        let rest = props.subrange(1, props.len() as int);
        assert forall|j: int| 0 <= j < rest.len() implies rest[j].0 != key by {
            assert(rest[j] == props[j + 1]);
        }
        lemma_get_prop_absent(rest, key);
    }
}

/// What a stored address reads back as: its `ip` and `port` joined again,
/// with the port in canonical decimal.
pub open spec fn reloaded_address(addr: Seq<char>) -> Seq<char> {
    saved_ip(addr) + seq![':'] + decimal(parse_u16(saved_port(addr))->0 as nat)
}

/// An address of the form `host:port` whose port is written in canonical decimal.
pub open spec fn canonical_address(addr: Seq<char>) -> bool {
    &&& last_index_of(addr, ':') >= 0
    &&& parse_u16(port_part(addr)) is Some
    &&& decimal(parse_u16(port_part(addr))->0 as nat) == port_part(addr)
}

proof fn lemma_last_index_of(s: Seq<char>, c: char)
    ensures
        -1 <= last_index_of(s, c) < s.len(),
        last_index_of(s, c) >= 0 ==> s[last_index_of(s, c)] == c,
    decreases s.len(),
{
    if s.len() > 0 && s.last() != c {
        lemma_last_index_of(s.drop_last(), c);
    }
}

proof fn lemma_canonical_reloads(addr: Seq<char>)
    requires
        canonical_address(addr),
    ensures
        reloaded_address(addr) == addr,
{
    lemma_last_index_of(addr, ':');
    let k = last_index_of(addr, ':');
    assert(addr =~= addr.subrange(0, k) + seq![':'] + addr.subrange(k + 1, addr.len() as int));
}

proof fn lemma_decimal_injective(a: nat, b: nat)
    requires
        decimal(a) == decimal(b),
    ensures
        a == b,
{
    crate::text::lemma_decimal(a);
    crate::text::lemma_decimal(b);
}

proof fn lemma_forward_names(i: nat, j: nat)
    ensures
        starts_with(forward_section_name(i), "forward"@),
        forward_section_name(i) != "general"@,
        i != j ==> forward_section_name(i) != forward_section_name(j),
{
    reveal_strlit("forward.");
    reveal_strlit("forward");
    reveal_strlit("general");
    let a = forward_section_name(i);
    assert(a.subrange(0, 7) =~= "forward"@);
    assert(a[0] == 'f');
    if i != j {
        let b = forward_section_name(j);
        if a == b {
            assert(a.subrange(8, a.len() as int) =~= decimal(i + 1));
            assert(b.subrange(8, b.len() as int) =~= decimal(j + 1));
            lemma_decimal_injective(i + 1, j + 1);
        }
    }
}

/// The targets read back from the first `k + 1` saved sections.
proof fn lemma_saved_targets(
    listen_port: Seq<char>,
    targets: Seq<(Seq<char>, Seq<char>)>,
    a: bool,
    b: bool,
    k: nat,
)
    requires
        k <= targets.len(),
        forall|i: int| 0 <= i < targets.len() ==> parse_u16(saved_port(#[trigger] targets[i].0)) is Some,
    ensures
        targets_upto(save_model(listen_port, targets, a, b), k + 1) == Some(
            targets.take(k as int).map_values(|t: (Seq<char>, Seq<char>)| (reloaded_address(t.0), t.1)),
        ),
    decreases k,
{
    let secs = save_model(listen_port, targets, a, b);
    let f = |t: (Seq<char>, Seq<char>)| (reloaded_address(t.0), t.1);
    reveal_strlit("general");
    reveal_strlit("forward");
    if k == 0 {
        assert(targets_upto(secs, 0) == Some(Seq::<(Seq<char>, Seq<char>)>::empty()));
        assert(secs[0].0 == Some("general"@));
        assert(!starts_with("general"@, "forward"@)) by {
            assert("general"@.subrange(0, 7)[0] == 'g');
        }
        assert(targets.take(0).map_values(f) =~= Seq::<(Seq<char>, Seq<char>)>::empty());
    } else {
        lemma_saved_targets(listen_port, targets, a, b, (k - 1) as nat);
        let i = (k - 1) as int;
        let t = targets[i];
        let name = forward_section_name(i as nat);
        assert(secs[k as int] == target_section(i as nat, t));
        lemma_forward_names(i as nat, i as nat);
        assert forall|j: int| 0 <= j < k implies secs[j].0 != Some(name) by {
            if j == 0 {
            } else {
                lemma_forward_names(i as nat, (j - 1) as nat);
                assert(secs[j] == target_section((j - 1) as nat, targets[j - 1]));
            }
        }
        lemma_find_section_at(secs, name, k as int);
        let props = secs[k as int].1;
        reveal_strlit("ip");
        reveal_strlit("port");
        reveal_strlit("note");
        lemma_get_prop_at(props, "ip"@, 0);
        assert(props[0].0 == "ip"@);
        assert(props[1].0 == "port"@);
        assert("ip"@.len() != "port"@.len());
        assert(props[0].0 != "port"@);
        lemma_get_prop_at(props, "port"@, 1);
        assert(parse_u16(saved_port(t.0)) is Some);
        assert("port"@[0] != "note"@[0]);
        if t.1.len() > 0 {
            assert(props[2].0 == "note"@);
            assert(props[1].0 != "note"@);
            lemma_get_prop_at(props, "note"@, 2);
        } else {
            assert(props[1].0 != "note"@);
            lemma_get_prop_absent(props, "note"@);
            assert(t.1 =~= Seq::<char>::empty());
        }
        assert(section_target(props) == Some(f(t)));
        assert(targets.take(k as int).map_values(f) =~= targets.take(i).map_values(f).push(f(t)));
    }
}

/// The law of the configuration file, at the level of its sections: loading
/// what was saved gives back the parsed listen port, both flags, and every
/// target in order, its address rewritten as `ip:port` with a canonical port
/// (so an address already in that form comes back unchanged). It holds when
/// the listen port and every saved port parse as `u16`; otherwise the load fails.
pub proof fn saved_config_loads_back(
    listen_port: Seq<char>,
    targets: Seq<(Seq<char>, Seq<char>)>,
    launch_on_startup: bool,
    minimize_to_tray: bool,
)
    requires
        parse_u16(listen_port) is Some,
        forall|i: int| 0 <= i < targets.len() ==> parse_u16(saved_port(#[trigger] targets[i].0)) is Some,
    ensures
        load_model(save_model(listen_port, targets, launch_on_startup, minimize_to_tray)) is Some,
        ({
            let c = load_model(save_model(listen_port, targets, launch_on_startup, minimize_to_tray))->0;
            &&& c.listen_port == parse_u16(listen_port)->0
            &&& c.launch_on_startup == launch_on_startup
            &&& c.minimize_to_tray == minimize_to_tray
            &&& c.targets.len() == targets.len()
            &&& forall|i: int| 0 <= i < targets.len() ==> #[trigger] c.targets[i] == (
                reloaded_address(targets[i].0),
                targets[i].1,
            )
            &&& forall|i: int| 0 <= i < targets.len() && canonical_address(targets[i].0)
                ==> #[trigger] c.targets[i] == targets[i]
        }),
{
    let secs = save_model(listen_port, targets, launch_on_startup, minimize_to_tray);
    reveal_strlit("general");
    reveal_strlit("listen_port");
    reveal_strlit("launch_on_startup");
    reveal_strlit("minimize_to_tray");
    reveal_strlit("true");
    reveal_strlit("false");
    lemma_find_section_at(secs, "general"@, 0);
    let general = secs[0].1;
    lemma_get_prop_at(general, "listen_port"@, 0);
    assert(general[0].0 == "listen_port"@);
    assert(general[1].0 == "launch_on_startup"@);
    assert(general[2].0 == "minimize_to_tray"@);
    assert("listen_port"@.len() != "launch_on_startup"@.len());
    assert("listen_port"@.len() != "minimize_to_tray"@.len());
    assert("launch_on_startup"@.len() != "minimize_to_tray"@.len());
    assert(general[0].0 != "launch_on_startup"@);
    lemma_get_prop_at(general, "launch_on_startup"@, 1);
    assert(general[0].0 != "minimize_to_tray"@);
    assert(general[1].0 != "minimize_to_tray"@);
    lemma_get_prop_at(general, "minimize_to_tray"@, 2);
    assert("false"@.len() != "true"@.len());
    assert(bool_text(launch_on_startup) == "true"@ <==> launch_on_startup);
    assert(bool_text(minimize_to_tray) == "true"@ <==> minimize_to_tray);
    lemma_saved_targets(listen_port, targets, launch_on_startup, minimize_to_tray, targets.len());
    assert(secs.len() == targets.len() + 1);
    assert(targets.take(targets.len() as int) =~= targets);
    let c = load_model(secs)->0;
    assert forall|i: int| 0 <= i < targets.len() && canonical_address(targets[i].0)
        implies #[trigger] c.targets[i] == targets[i] by {
        lemma_canonical_reloads(targets[i].0);
        assert(saved_port(targets[i].0) == port_part(targets[i].0));
    }
}

} // verus!
