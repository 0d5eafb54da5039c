//! Reads the p0f fingerprint database format.
//!
//! Only the sections `[tcp:request]` and `[http:request]` are read; the others
//! are recognised and skipped. A line that makes no sense here is dropped, and
//! the lines around it are read all the same.

use vstd::prelude::*;
use vstd::slice::slice_subrange;

use crate::observation::TcpOptionKind;
use crate::text;
use crate::text::{
    after_first, after_prefix, before_last, cut, first_occurrence, lower, non_empty, split,
    split_at_most, strings, texts, trim, unsigned,
};
use crate::text::{decimal, join, white_space};

verus! {

/// The window size a signature asks for.
#[derive(Debug, Clone, Copy, PartialEq, Eq, Structural)]
pub enum WindowSpec {
    Any,
    Fixed(u16),
    /// `mss*N`: the window is the segment's own MSS times `N`.
    MssMultiple(u32),
    /// `%N`: the window is a multiple of `N`.
    Modulo(u32),
    /// `mtu*N`: the window is `N` times the MTU that the segment's own MSS
    /// implies.
    MtuMultiple(u32),
}

#[derive(Debug, Clone, Copy, PartialEq, Eq, Structural)]
pub enum PayloadClass {
    Zero,
    NonZero,
    Any,
}

/// What a `label` line says of the signatures that follow it.
#[derive(Debug)]
pub struct PendingLabel {
    pub specific: bool,
    pub class: String,
    pub label: String,
}

/// What a [`PendingLabel`] holds.
pub ghost struct LabelView {
    pub specific: bool,
    pub class: Seq<char>,
    pub label: Seq<char>,
}

impl View for PendingLabel {
    type V = LabelView;

    open spec fn view(&self) -> LabelView {
        LabelView { specific: self.specific, class: self.class@, label: self.label@ }
    }
}

/// One `[tcp:request]` signature, tied to the `label` line above it.
#[derive(Debug)]
pub struct TcpSignature {
    /// Specific rather than generic: generic signatures count only where no
    /// specific one matches.
    pub specific: bool,
    /// OS family from the label, or `!` for a tool or an application.
    pub class: String,
    /// Display name: the label's name and flavor.
    pub label: String,
    /// The signature as written in the database.
    pub raw: String,
    pub ip_version: Option<u8>,
    pub initial_ttl: u8,
    /// Any TTL at or below `initial_ttl` counts, not just one a plausible
    /// number of hops away.
    pub ittl_is_ceiling: bool,
    pub mss: Option<u16>,
    pub window: WindowSpec,
    pub window_scale: Option<u8>,
    pub option_layout: Vec<TcpOptionKind>,
    /// Padding bytes after the EOL option. `None` when the layout has none.
    pub eol_padding: Option<u8>,
    /// Quirk tokens, as written.
    pub quirks: Vec<String>,
    pub payload_class: PayloadClass,
}

/// What a [`TcpSignature`] holds.
pub ghost struct TcpSignatureView {
    pub specific: bool,
    pub class: Seq<char>,
    pub label: Seq<char>,
    pub raw: Seq<char>,
    pub ip_version: Option<u8>,
    pub initial_ttl: u8,
    pub ittl_is_ceiling: bool,
    pub mss: Option<u16>,
    pub window: WindowSpec,
    pub window_scale: Option<u8>,
    pub option_layout: Seq<TcpOptionKind>,
    pub eol_padding: Option<u8>,
    pub quirks: Seq<Seq<char>>,
    pub payload_class: PayloadClass,
}

impl View for TcpSignature {
    type V = TcpSignatureView;

    open spec fn view(&self) -> TcpSignatureView {
        TcpSignatureView {
            specific: self.specific,
            class: self.class@,
            label: self.label@,
            raw: self.raw@,
            ip_version: self.ip_version,
            initial_ttl: self.initial_ttl,
            ittl_is_ceiling: self.ittl_is_ceiling,
            mss: self.mss,
            window: self.window,
            window_scale: self.window_scale,
            option_layout: self.option_layout@,
            eol_padding: self.eol_padding,
            quirks: strings(self.quirks@),
            payload_class: self.payload_class,
        }
    }
}

/// One expected header in an `[http:request]` signature.
#[derive(Debug)]
pub struct HttpHeaderExpectation {
    /// In lower case.
    pub name: String,
    /// The header's value must contain this.
    pub value_contains: Option<String>,
    /// The header may be missing; where it is there, it must be in sequence.
    pub optional: bool,
}

/// What an [`HttpHeaderExpectation`] holds.
pub ghost struct HeaderView {
    pub name: Seq<char>,
    pub value_contains: Option<Seq<char>>,
    pub optional: bool,
}

/// The text of a string that may be missing.
pub open spec fn optional_text(s: Option<String>) -> Option<Seq<char>> {
    match s {
        Some(s) => Some(s@),
        None => None,
    }
}

impl View for HttpHeaderExpectation {
    type V = HeaderView;

    open spec fn view(&self) -> HeaderView {
        HeaderView {
            name: self.name@,
            value_contains: optional_text(self.value_contains),
            optional: self.optional,
        }
    }
}

/// What a list of expected headers holds.
pub open spec fn header_views(list: Seq<HttpHeaderExpectation>) -> Seq<HeaderView> {
    Seq::new(list.len(), |i: int| list[i]@)
}

/// One `[http:request]` signature.
#[derive(Debug)]
pub struct HttpSignature {
    /// Specific rather than generic, with the same precedence as for TCP.
    pub specific: bool,
    pub label: String,
    /// `0` or `1` of `HTTP/1.x`; `None` for either.
    pub http_minor_version: Option<u8>,
    /// Headers expected in this order, others between them or not.
    pub header_order: Vec<HttpHeaderExpectation>,
    /// Header names, in lower case, that must not appear.
    pub header_absent: Vec<String>,
    /// Expected in the User-Agent. A User-Agent that disagrees lowers the
    /// confidence of a match rather than preventing it.
    pub expected_software: Option<String>,
}

/// What an [`HttpSignature`] holds.
pub ghost struct HttpSignatureView {
    pub specific: bool,
    pub label: Seq<char>,
    pub http_minor_version: Option<u8>,
    pub header_order: Seq<HeaderView>,
    pub header_absent: Seq<Seq<char>>,
    pub expected_software: Option<Seq<char>>,
}

impl View for HttpSignature {
    type V = HttpSignatureView;

    open spec fn view(&self) -> HttpSignatureView {
        HttpSignatureView {
            specific: self.specific,
            label: self.label@,
            http_minor_version: self.http_minor_version,
            header_order: header_views(self.header_order@),
            header_absent: strings(self.header_absent@),
            expected_software: optional_text(self.expected_software),
        }
    }
}

/// The signatures of one database.
#[derive(Debug)]
pub struct P0fDb {
    pub tcp_request: Vec<TcpSignature>,
    pub http_request: Vec<HttpSignature>,
}

impl Default for P0fDb {
    fn default() -> (r: Self)
        ensures
            r.tcp_request@.len() == 0,
            r.http_request@.len() == 0,
    {
        P0fDb { tcp_request: Vec::new(), http_request: Vec::new() }
    }
}

/// What a list of TCP signatures holds.
pub open spec fn tcp_views(list: Seq<TcpSignature>) -> Seq<TcpSignatureView> {
    Seq::new(list.len(), |i: int| list[i]@)
}

/// What a list of HTTP signatures holds.
pub open spec fn http_views(list: Seq<HttpSignature>) -> Seq<HttpSignatureView> {
    Seq::new(list.len(), |i: int| list[i]@)
}

/// The piece at `i`, or the empty text where there are not so many.
pub open spec fn piece(pieces: Seq<Seq<char>>, i: int) -> Seq<char> {
    if 0 <= i < pieces.len() {
        pieces[i]
    } else {
        Seq::empty()
    }
}

fn piece_of<'a>(pieces: &Vec<&'a [char]>, i: usize, none: &'a [char]) -> (r: &'a [char])
    requires
        none@.len() == 0,
    ensures
        r@ == piece(texts(pieces@), i as int),
{
    if i < pieces.len() {
        pieces[i]
    } else {
        assert(none@ =~= Seq::empty());
        none
    }
}

// ---------------------------------------------------------------------------
// Labels

/// `type:class:name:flavor`, of which the last two may be missing.
pub open spec fn read_label(value: Seq<char>) -> Option<LabelView> {
    let parts = split_at_most(value, 4, ':');
    if parts.len() < 2 {
        None
    } else {
        let name = trim(piece(parts, 2));
        let flavor = trim(piece(parts, 3));
        Some(
            LabelView {
                specific: parts[0] == "s"@,
                class: parts[1],
                label: if flavor.len() == 0 {
                    name
                } else {
                    name.push(' ') + flavor
                },
            },
        )
    }
}

/// Reads the value of a `label` line.
pub fn parse_label(value: &[char]) -> (r: Option<PendingLabel>)
    ensures
        match r {
            Some(label) => read_label(value@) == Some(label@),
            None => read_label(value@) is None,
        },
{
    let parts = text::split_on_at_most(value, 4, ':');
    assert(texts(parts@).len() == parts@.len());
    if parts.len() < 2 {
        return None;
    }
    let none: Vec<char> = Vec::new();
    let name = text::trimmed(piece_of(&parts, 2, none.as_slice()));
    let flavor = text::trimmed(piece_of(&parts, 3, none.as_slice()));
    let mut label = text::string_of(name);
    if flavor.len() > 0 {
        label.push(' ');
        let tail = text::string_of(flavor);
        label.append(tail.as_str());
    }
    assert(texts(parts@)[0] == parts@[0]@ && texts(parts@)[1] == parts@[1]@);
    Some(
        PendingLabel {
            specific: text::is_text(parts[0], "s"),
            class: text::string_of(parts[1]),
            label,
        },
    )
}

// ---------------------------------------------------------------------------
// The parts of a TCP signature

/// A byte written in decimal.
pub open spec fn read_u8(s: Seq<char>) -> Option<u8> {
    match unsigned(s, u8::MAX as nat) {
        Some(n) => Some(n as u8),
        None => None,
    }
}

pub open spec fn read_u16(s: Seq<char>) -> Option<u16> {
    match unsigned(s, u16::MAX as nat) {
        Some(n) => Some(n as u16),
        None => None,
    }
}

pub open spec fn read_u32(s: Seq<char>) -> Option<u32> {
    match unsigned(s, u32::MAX as nat) {
        Some(n) => Some(n as u32),
        None => None,
    }
}

pub fn parse_u8(s: &[char]) -> (r: Option<u8>)
    ensures
        r == read_u8(s@),
{
    match text::parse_unsigned(s, u8::MAX as u64) {
        Some(n) => Some(n as u8),
        None => None,
    }
}

fn parse_u16(s: &[char]) -> (r: Option<u16>)
    ensures
        r == read_u16(s@),
{
    match text::parse_unsigned(s, u16::MAX as u64) {
        Some(n) => Some(n as u16),
        None => None,
    }
}

fn parse_u32(s: &[char]) -> (r: Option<u32>)
    ensures
        r == read_u32(s@),
{
    match text::parse_unsigned(s, u32::MAX as u64) {
        Some(n) => Some(n as u32),
        None => None,
    }
}

/// The window size that a `wsize` token asks for. `None` where it cannot be read.
pub open spec fn read_window(token: Seq<char>) -> Option<WindowSpec> {
    if token == "*"@ {
        Some(WindowSpec::Any)
    } else if let Some(n) = after_prefix(token, "mss*"@) {
        match read_u32(n) {
            Some(n) => Some(WindowSpec::MssMultiple(n)),
            None => None,
        }
    } else if let Some(n) = after_prefix(token, "mtu*"@) {
        match read_u32(n) {
            Some(n) => Some(WindowSpec::MtuMultiple(n)),
            None => None,
        }
    } else if let Some(n) = after_first(token, '%') {
        match read_u32(n) {
            Some(n) => Some(WindowSpec::Modulo(n)),
            None => None,
        }
    } else {
        match read_u16(token) {
            Some(n) => Some(WindowSpec::Fixed(n)),
            None => None,
        }
    }
}

/// Reads a `wsize` token.
pub fn parse_window(token: &[char]) -> (r: Option<WindowSpec>)
    ensures
        r == read_window(token@),
{
    if text::is_text(token, "*") {
        return Some(WindowSpec::Any);
    }
    if let Some(n) = text::strip_prefix(token, "mss*") {
        return match parse_u32(n) {
            Some(n) => Some(WindowSpec::MssMultiple(n)),
            None => None,
        };
    }
    if let Some(n) = text::strip_prefix(token, "mtu*") {
        return match parse_u32(n) {
            Some(n) => Some(WindowSpec::MtuMultiple(n)),
            None => None,
        };
    }
    if let Some(n) = text::strip_first(token, '%') {
        return match parse_u32(n) {
            Some(n) => Some(WindowSpec::Modulo(n)),
            None => None,
        };
    }
    match parse_u16(token) {
        Some(n) => Some(WindowSpec::Fixed(n)),
        None => None,
    }
}

/// How many bytes of padding the text after `eol` asks for: `+N`, or none where there
/// is no such text. `None` where it cannot be read.
pub open spec fn read_padding_count(rest: Seq<char>) -> Option<u8> {
    if rest.len() == 0 {
        Some(0u8)
    } else {
        match after_first(rest, '+') {
            Some(n) => read_u8(n),
            None => None,
        }
    }
}

fn parse_padding_count(rest: &[char]) -> (r: Option<u8>)
    ensures
        r == read_padding_count(rest@),
{
    if rest.len() == 0 {
        return Some(0);
    }
    match text::strip_first(rest, '+') {
        Some(n) => parse_u8(n),
        None => None,
    }
}

/// The TCP option that a layout token stands for. `None` where it stands for none.
pub open spec fn read_option(token: Seq<char>) -> Option<TcpOptionKind> {
    if let Some(digits) = after_first(token, '?') {
        match read_u8(digits) {
            Some(id) => Some(TcpOptionKind::Other(id)),
            None => None,
        }
    } else if token == "nop"@ {
        Some(TcpOptionKind::Nop)
    } else if token == "mss"@ {
        Some(TcpOptionKind::Mss)
    } else if token == "ws"@ {
        Some(TcpOptionKind::WindowScale)
    } else if token == "sok"@ {
        Some(TcpOptionKind::SackPermitted)
    } else if token == "sack"@ {
        Some(TcpOptionKind::Sack)
    } else if token == "ts"@ {
        Some(TcpOptionKind::Timestamp)
    } else if let Some(rest) = after_prefix(token, "eol"@) {
        match read_padding_count(rest) {
            Some(_) => Some(TcpOptionKind::Eol),
            None => None,
        }
    } else {
        None
    }
}

/// Reads one token of an option layout.
pub fn parse_option_token(token: &[char]) -> (r: Option<TcpOptionKind>)
    ensures
        r == read_option(token@),
{
    if let Some(digits) = text::strip_first(token, '?') {
        return match parse_u8(digits) {
            Some(id) => Some(TcpOptionKind::Other(id)),
            None => None,
        };
    }
    if text::is_text(token, "nop") {
        return Some(TcpOptionKind::Nop);
    }
    if text::is_text(token, "mss") {
        return Some(TcpOptionKind::Mss);
    }
    if text::is_text(token, "ws") {
        return Some(TcpOptionKind::WindowScale);
    }
    if text::is_text(token, "sok") {
        return Some(TcpOptionKind::SackPermitted);
    }
    if text::is_text(token, "sack") {
        return Some(TcpOptionKind::Sack);
    }
    if text::is_text(token, "ts") {
        return Some(TcpOptionKind::Timestamp);
    }
    match text::strip_prefix(token, "eol") {
        Some(rest) => match parse_padding_count(rest) {
            Some(_) => Some(TcpOptionKind::Eol),
            None => None,
        },
        None => None,
    }
}

/// Whether every token stands for an option.
pub open spec fn all_options(tokens: Seq<Seq<char>>) -> bool {
    forall|i: int| 0 <= i < tokens.len() ==> read_option(#[trigger] tokens[i]) is Some
}

/// The options that tokens stand for.
pub open spec fn options_of(tokens: Seq<Seq<char>>) -> Seq<TcpOptionKind> {
    tokens.map_values(|token: Seq<char>| read_option(token)->0)
}

/// The options that a list of layout tokens stands for; empty tokens stand for
/// none. `None` where any other cannot be read.
pub open spec fn read_layout(tokens: Seq<Seq<char>>) -> Option<Seq<TcpOptionKind>> {
    if all_options(non_empty(tokens)) {
        Some(options_of(non_empty(tokens)))
    } else {
        None
    }
}

fn parse_layout(tokens: &Vec<&[char]>) -> (r: Option<Vec<TcpOptionKind>>)
    ensures
        match r {
            Some(layout) => read_layout(texts(tokens@)) == Some(layout@),
            None => read_layout(texts(tokens@)) is None,
        },
{
    let mut out: Vec<TcpOptionKind> = Vec::new();
    let mut i: usize = 0;
    let ghost all = texts(tokens@);
    let ghost filled = |piece: Seq<char>| piece.len() > 0;
    assert(out@ =~= options_of(non_empty(all.take(0))));
    while i < tokens.len()
        invariant
            i <= tokens@.len(),
            all == texts(tokens@),
            filled == (|piece: Seq<char>| piece.len() > 0),
            all_options(non_empty(all.take(i as int))),
            out@ == options_of(non_empty(all.take(i as int))),
        decreases tokens@.len() - i,
    {
        let ghost so_far = non_empty(all.take(i as int));
        let ghost token = all[i as int];
        proof {
            assert(all.take(i + 1) =~= all.take(i as int).push(token));
            all.take(i as int).lemma_filter_push(token, filled);
        }
        if tokens[i].len() > 0 {
            match parse_option_token(tokens[i]) {
                Some(option) => {
                    out.push(option);
                    proof {
                        assert(out@ =~= options_of(so_far.push(token)));
                        assert(all_options(so_far.push(token)));
                    }
                },
                None => {
                    proof {
                        assert(all =~= all.take(i + 1) + all.skip(i + 1));
                        Seq::filter_distributes_over_add(
                            all.take(i + 1),
                            all.skip(i + 1),
                            filled,
                        );
                        assert(non_empty(all)[so_far.len() as int] == token);
                    }
                    return None;
                },
            }
        }
        i = i + 1;
    }
    assert(all.take(i as int) =~= all);
    Some(out)
}

/// The padding after the EOL option: that of the first token that begins with
/// `eol`.
pub open spec fn read_padding(tokens: Seq<Seq<char>>) -> Option<u8>
    decreases tokens.len(),
{
    if tokens.len() == 0 {
        None
    } else {
        match after_prefix(tokens[0], "eol"@) {
            Some(rest) => read_padding_count(rest),
            None => read_padding(tokens.skip(1)),
        }
    }
}

fn parse_padding(tokens: &Vec<&[char]>) -> (r: Option<u8>)
    ensures
        r == read_padding(texts(tokens@)),
{
    let mut i: usize = 0;
    let ghost all = texts(tokens@);
    assert(all.skip(0) =~= all);
    while i < tokens.len()
        invariant
            i <= tokens@.len(),
            all == texts(tokens@),
            read_padding(all) == read_padding(all.skip(i as int)),
        decreases tokens@.len() - i,
    {
        assert(all.skip(i as int)[0] == tokens@[i as int]@);
        assert(all.skip(i as int).skip(1) =~= all.skip(i + 1));
        if let Some(rest) = text::strip_prefix(tokens[i], "eol") {
            return parse_padding_count(rest);
        }
        i = i + 1;
    }
    None
}

/// The non-empty pieces, each as a string.
fn non_empty_strings(pieces: &Vec<&[char]>) -> (r: Vec<String>)
    ensures
        strings(r@) == non_empty(texts(pieces@)),
{
    let mut out: Vec<String> = Vec::new();
    let mut i: usize = 0;
    let ghost all = texts(pieces@);
    assert(strings(out@) =~= non_empty(all.take(0)));
    while i < pieces.len()
        invariant
            i <= pieces@.len(),
            all == texts(pieces@),
            strings(out@) == non_empty(all.take(i as int)),
        decreases pieces@.len() - i,
    {
        proof {
            assert(all.take(i + 1) =~= all.take(i as int).push(all[i as int]));
            all.take(i as int).lemma_filter_push(
                all[i as int],
                |piece: Seq<char>| piece.len() > 0,
            );
        }
        let ghost before = strings(out@);
        if pieces[i].len() > 0 {
            out.push(text::string_of(pieces[i]));
            assert(strings(out@) =~= before.push(all[i as int]));
        }
        i = i + 1;
    }
    assert(all.take(i as int) =~= all);
    out
}

/// What a signature asks of the payload. `None` where it cannot be read.
pub open spec fn read_payload_class(token: Seq<char>) -> Option<PayloadClass> {
    if token == "0"@ {
        Some(PayloadClass::Zero)
    } else if token == "+"@ {
        Some(PayloadClass::NonZero)
    } else if token == "*"@ {
        Some(PayloadClass::Any)
    } else {
        None
    }
}

/// The MSS a signature asks for: a number, or any.
pub open spec fn read_mss(token: Seq<char>) -> Option<Option<u16>> {
    if token == "*"@ {
        Some(None)
    } else {
        match read_u16(token) {
            Some(n) => Some(Some(n)),
            None => None,
        }
    }
}

/// The window scale a signature asks for: a number, or any.
pub open spec fn read_scale(token: Seq<char>) -> Option<Option<u8>> {
    if token == "*"@ {
        Some(None)
    } else {
        match read_u8(token) {
            Some(n) => Some(Some(n)),
            None => None,
        }
    }
}

fn parse_mss(token: &[char]) -> (r: Option<Option<u16>>)
    ensures
        r == read_mss(token@),
{
    if text::is_text(token, "*") {
        return Some(None);
    }
    match parse_u16(token) {
        Some(n) => Some(Some(n)),
        None => None,
    }
}

fn parse_scale(token: &[char]) -> (r: Option<Option<u8>>)
    ensures
        r == read_scale(token@),
{
    if text::is_text(token, "*") {
        return Some(None);
    }
    match parse_u8(token) {
        Some(n) => Some(Some(n)),
        None => None,
    }
}

/// The window size and the window scale: `wsize,scale`.
pub open spec fn read_window_field(field: Seq<char>) -> Option<(WindowSpec, Option<u8>)> {
    match cut(field, ',') {
        Some((wsize, scale)) => match (read_window(wsize), read_scale(scale)) {
            (Some(window), Some(scale)) => Some((window, scale)),
            _ => None,
        },
        None => None,
    }
}

fn parse_window_field(field: &[char]) -> (r: Option<(WindowSpec, Option<u8>)>)
    ensures
        r == read_window_field(field@),
{
    match text::split_once(field, ',') {
        Some((wsize, scale)) => match (parse_window(wsize), parse_scale(scale)) {
            (Some(window), Some(scale)) => Some((window, scale)),
            _ => None,
        },
        None => None,
    }
}

fn parse_payload_class(token: &[char]) -> (r: Option<PayloadClass>)
    ensures
        r == read_payload_class(token@),
{
    if text::is_text(token, "0") {
        Some(PayloadClass::Zero)
    } else if text::is_text(token, "+") {
        Some(PayloadClass::NonZero)
    } else if text::is_text(token, "*") {
        Some(PayloadClass::Any)
    } else {
        None
    }
}

/// The IP versions a signature is for: one of them, or any.
pub open spec fn read_version(token: Seq<char>) -> Option<Option<u8>> {
    if token == "*"@ {
        Some(None)
    } else if token == "4"@ {
        Some(Some(4u8))
    } else if token == "6"@ {
        Some(Some(6u8))
    } else {
        None
    }
}

/// The initial TTL, and whether it is a ceiling rather than a fixed value.
pub open spec fn read_ttl(token: Seq<char>) -> Option<(bool, u8)> {
    let (ceiling, digits) = match before_last(token, '-') {
        Some(rest) => (true, rest),
        None => (false, token),
    };
    match read_u8(digits) {
        Some(ttl) => Some((ceiling, ttl)),
        None => None,
    }
}

/// `ver:ittl:olen:mss:wsize,scale:olayout:quirks:pclass`. `None` where a field is
/// missing or cannot be read. The `olen` is not looked at.
pub open spec fn read_tcp_signature(value: Seq<char>, label: LabelView) -> Option<
    TcpSignatureView,
> {
    let fields = split_at_most(value, 8, ':');
    if fields.len() < 8 {
        None
    } else {
        match (
            (read_version(fields[0]), read_ttl(fields[1]), read_mss(fields[3])),
            (
                read_window_field(fields[4]),
                read_layout(split(fields[5], ',')),
                read_payload_class(fields[7]),
            ),
        ) {
            (
                (Some(ip_version), Some((ittl_is_ceiling, initial_ttl)), Some(mss)),
                (Some((window, window_scale)), Some(option_layout), Some(payload_class)),
            ) => Some(
                TcpSignatureView {
                    specific: label.specific,
                    class: label.class,
                    label: label.label,
                    raw: trim(value),
                    ip_version,
                    initial_ttl,
                    ittl_is_ceiling,
                    mss,
                    window,
                    window_scale,
                    option_layout,
                    eol_padding: read_padding(split(fields[5], ',')),
                    quirks: non_empty(split(fields[6], ',')),
                    payload_class,
                },
            ),
            _ => None,
        }
    }
}

/// Reads a TCP signature, under the label above it.
pub fn parse_tcp_sig(value: &[char], current: &PendingLabel) -> (r: Option<TcpSignature>)
    ensures
        match r {
            Some(sig) => read_tcp_signature(value@, current@) == Some(sig@),
            None => read_tcp_signature(value@, current@) is None,
        },
{
    let fields = text::split_on_at_most(value, 8, ':');
    assert(texts(fields@).len() == fields@.len());
    if fields.len() < 8 {
        return None;
    }
    assert(forall|i: int| 0 <= i < 8 ==> texts(fields@)[i] == #[trigger] fields@[i]@);

    let ip_version: Option<u8> = if text::is_text(fields[0], "*") {
        None
    } else if text::is_text(fields[0], "4") {
        Some(4)
    } else if text::is_text(fields[0], "6") {
        Some(6)
    } else {
        return None;
    };

    let (ittl_is_ceiling, ittl_digits) = match text::strip_last(fields[1], '-') {
        Some(rest) => (true, rest),
        None => (false, fields[1]),
    };
    let initial_ttl = match parse_u8(ittl_digits) {
        Some(ttl) => ttl,
        None => {
            return None;
        },
    };

    let mss = match parse_mss(fields[3]) {
        Some(mss) => mss,
        None => {
            return None;
        },
    };
    let (window, window_scale) = match parse_window_field(fields[4]) {
        Some(read) => read,
        None => {
            return None;
        },
    };
    let tokens = text::split_on(fields[5], ',');
    let option_layout = match parse_layout(&tokens) {
        Some(layout) => layout,
        None => {
            return None;
        },
    };
    let quirks = text::split_on(fields[6], ',');
    let payload_class = match parse_payload_class(fields[7]) {
        Some(class) => class,
        None => {
            return None;
        },
    };

    Some(
        TcpSignature {
            specific: current.specific,
            class: current.class.clone(),
            label: current.label.clone(),
            raw: text::string_of(text::trimmed(value)),
            ip_version,
            initial_ttl,
            ittl_is_ceiling,
            mss,
            window,
            window_scale,
            option_layout,
            eol_padding: parse_padding(&tokens),
            quirks: non_empty_strings(&quirks),
            payload_class,
        },
    )
}

// ---------------------------------------------------------------------------
// The parts of an HTTP signature

/// How many more brackets have been opened than closed before `i`.
pub open spec fn bracket_depth(s: Seq<char>, i: int) -> int
    decreases i,
{
    if i <= 0 {
        0
    } else {
        bracket_depth(s, i - 1) + (if s[i - 1] == '[' {
            1int
        } else if s[i - 1] == ']' {
            -1int
        } else {
            0int
        })
    }
}

/// Whether the character at `i` is a `delim` outside all brackets.
pub open spec fn top_level_at(s: Seq<char>, delim: char, i: int) -> bool {
    s[i] == delim && delim != '[' && delim != ']' && bracket_depth(s, i) <= 0
}

/// The first place from `i` on where a `delim` stands outside all brackets; the
/// length of `s` where there is none.
pub open spec fn next_top_level(s: Seq<char>, delim: char, i: int) -> int
    decreases s.len() - i,
{
    if i >= s.len() {
        s.len() as int
    } else if top_level_at(s, delim, i) {
        i
    } else {
        next_top_level(s, delim, i + 1)
    }
}

/// The pieces of `s` from `start` on, cut at each `delim` outside all brackets.
pub open spec fn top_level_from(s: Seq<char>, delim: char, start: int) -> Seq<Seq<char>>
    decreases s.len() - start,
    when 0 <= start <= s.len()
    via top_level_from_decreases
{
    let p = next_top_level(s, delim, start);
    if p < s.len() {
        seq![s.subrange(start, p)] + top_level_from(s, delim, p + 1)
    } else {
        seq![s.subrange(start, s.len() as int)]
    }
}

proof fn lemma_next_top_level(s: Seq<char>, delim: char, i: int)
    requires
        0 <= i <= s.len(),
    ensures
        i <= next_top_level(s, delim, i) <= s.len(),
    decreases s.len() - i,
{
    if i < s.len() && !top_level_at(s, delim, i) {
        lemma_next_top_level(s, delim, i + 1);
    }
}

#[via_fn]
proof fn top_level_from_decreases(s: Seq<char>, delim: char, start: int) {
    lemma_next_top_level(s, delim, start);
}

/// The pieces of `s` between the `delim`s that stand outside all brackets.
pub open spec fn top_level(s: Seq<char>, delim: char) -> Seq<Seq<char>> {
    top_level_from(s, delim, 0)
}

/// Splits `s` at each `delim`, but not inside brackets.
pub fn split_top_level<'a>(s: &'a [char], delim: char) -> (r: Vec<&'a [char]>)
    ensures
        texts(r@) == top_level(s@, delim),
        r@.len() >= 1,
{
    let mut result: Vec<&'a [char]> = Vec::new();
    let mut depth: i128 = 0;
    let mut start: usize = 0;
    let mut i: usize = 0;
    assert(top_level(s@, delim) =~= texts(result@) + top_level_from(s@, delim, 0));
    while i < s.len()
        invariant
            start <= i <= s@.len(),
            depth == bracket_depth(s@, i as int),
            -(i as int) <= depth <= i,
            next_top_level(s@, delim, start as int) == next_top_level(s@, delim, i as int),
            top_level(s@, delim) == texts(result@) + top_level_from(s@, delim, start as int),
        decreases s@.len() - i,
    {
        let c = s[i];
        if c == '[' {
            depth = depth + 1;
        } else if c == ']' {
            depth = depth - 1;
        } else if c == delim && depth <= 0 {
            assert(top_level_at(s@, delim, i as int));
            let ghost before = texts(result@);
            result.push(slice_subrange(s, start, i));
            proof {
                assert(texts(result@) =~= before + seq![s@.subrange(start as int, i as int)]);
                assert(top_level(s@, delim) =~= texts(result@) + top_level_from(
                    s@,
                    delim,
                    i + 1,
                ));
            }
            start = i + 1;
        }
        i = i + 1;
    }
    let ghost before = texts(result@);
    result.push(slice_subrange(s, start, s.len()));
    assert(texts(result@) =~= before + seq![s@.subrange(start as int, s@.len() as int)]);
    result
}

/// An expected header: `?` in front for an optional one, `=[value]` behind for
/// one whose value must contain `value`.
pub open spec fn read_header(token: Seq<char>) -> HeaderView {
    let (optional, token) = match after_first(token, '?') {
        Some(rest) => (true, rest),
        None => (false, token),
    };
    match first_occurrence(token, "=["@) {
        Some(open) => {
            let tail = token.skip(open + 2);
            HeaderView {
                name: lower(trim(token.take(open))),
                value_contains: Some(
                    match before_last(tail, ']') {
                        Some(value) => value,
                        None => tail,
                    },
                ),
                optional,
            }
        },
        None => HeaderView { name: lower(trim(token)), value_contains: None, optional },
    }
}

fn lower_trimmed(s: &[char]) -> (r: String)
    ensures
        r@ == lower(trim(s@)),
{
    let chars = text::to_lower(text::trimmed(s));
    text::string_of(chars.as_slice())
}

/// Reads one expected header.
pub fn parse_header_expectation(token: &[char]) -> (r: HttpHeaderExpectation)
    ensures
        r@ == read_header(token@),
{
    let (optional, token) = match text::strip_first(token, '?') {
        Some(rest) => (true, rest),
        None => (false, token),
    };
    let open_mark = text::chars_of("=[");
    proof {
        reveal_strlit("=[");
        assert(open_mark@.len() == 2);
    }
    match text::find(token, open_mark.as_slice()) {
        Some(open) => {
            let len: usize = token.len();
            let tail = slice_subrange(token, open + 2, len);
            assert(tail@ =~= token@.skip(open + 2));
            assert(token@.subrange(0, open as int) =~= token@.take(open as int));
            let value = match text::strip_last(tail, ']') {
                Some(value) => value,
                None => tail,
            };
            HttpHeaderExpectation {
                name: lower_trimmed(slice_subrange(token, 0, open)),
                value_contains: Some(text::string_of(value)),
                optional,
            }
        },
        None => HttpHeaderExpectation {
            name: lower_trimmed(token),
            value_contains: None,
            optional,
        },
    }
}

/// Every piece without the white space around it.
pub open spec fn trim_all(pieces: Seq<Seq<char>>) -> Seq<Seq<char>> {
    pieces.map_values(|piece: Seq<char>| trim(piece))
}

/// The expected headers of an `horder` list.
pub open spec fn read_header_order(horder: Seq<char>) -> Seq<HeaderView> {
    non_empty(trim_all(top_level(horder, ','))).map_values(|token: Seq<char>| read_header(token))
}

/// The names of an `habsent` list.
pub open spec fn read_absent(habsent: Seq<char>) -> Seq<Seq<char>> {
    non_empty(trim_all(top_level(habsent, ','))).map_values(|name: Seq<char>| lower(name))
}

fn parse_header_order(horder: &[char]) -> (r: Vec<HttpHeaderExpectation>)
    ensures
        header_views(r@) == read_header_order(horder@),
{
    let pieces = split_top_level(horder, ',');
    let mut out: Vec<HttpHeaderExpectation> = Vec::new();
    let mut i: usize = 0;
    let ghost all = trim_all(texts(pieces@));
    let ghost read = |token: Seq<char>| read_header(token);
    assert(header_views(out@) =~= non_empty(all.take(0)).map_values(read));
    while i < pieces.len()
        invariant
            i <= pieces@.len(),
            all == trim_all(texts(pieces@)),
            read == (|token: Seq<char>| read_header(token)),
            header_views(out@) == non_empty(all.take(i as int)).map_values(read),
        decreases pieces@.len() - i,
    {
        proof {
            assert(all.take(i + 1) =~= all.take(i as int).push(all[i as int]));
            all.take(i as int).lemma_filter_push(
                all[i as int],
                |piece: Seq<char>| piece.len() > 0,
            );
        }
        let ghost before = header_views(out@);
        let token = text::trimmed(pieces[i]);
        assert(token@ == all[i as int]);
        if token.len() > 0 {
            out.push(parse_header_expectation(token));
            assert(header_views(out@) =~= before.push(read_header(all[i as int])));
        }
        assert(header_views(out@) =~= non_empty(all.take(i + 1)).map_values(read));
        i = i + 1;
    }
    assert(all.take(i as int) =~= all);
    out
}

fn parse_absent(habsent: &[char]) -> (r: Vec<String>)
    ensures
        strings(r@) == read_absent(habsent@),
{
    let pieces = split_top_level(habsent, ',');
    let mut out: Vec<String> = Vec::new();
    let mut i: usize = 0;
    let ghost all = trim_all(texts(pieces@));
    let ghost small = |name: Seq<char>| lower(name);
    assert(strings(out@) =~= non_empty(all.take(0)).map_values(small));
    while i < pieces.len()
        invariant
            i <= pieces@.len(),
            all == trim_all(texts(pieces@)),
            small == (|name: Seq<char>| lower(name)),
            strings(out@) == non_empty(all.take(i as int)).map_values(small),
        decreases pieces@.len() - i,
    {
        proof {
            assert(all.take(i + 1) =~= all.take(i as int).push(all[i as int]));
            all.take(i as int).lemma_filter_push(
                all[i as int],
                |piece: Seq<char>| piece.len() > 0,
            );
        }
        let ghost before = strings(out@);
        let name = text::trimmed(pieces[i]);
        assert(name@ == all[i as int]);
        if name.len() > 0 {
            let chars = text::to_lower(name);
            out.push(text::string_of(chars.as_slice()));
            assert(strings(out@) =~= before.push(lower(all[i as int])));
        }
        assert(strings(out@) =~= non_empty(all.take(i + 1)).map_values(small));
        i = i + 1;
    }
    assert(all.take(i as int) =~= all);
    out
}

/// The HTTP versions a signature is for: the minor version of `HTTP/1.x`, or either.
pub open spec fn read_http_version(token: Seq<char>) -> Option<Option<u8>> {
    if token == "*"@ {
        Some(None)
    } else if token == "0"@ {
        Some(Some(0u8))
    } else if token == "1"@ {
        Some(Some(1u8))
    } else {
        None
    }
}

/// `ver:horder:habsent:expsw`, of which all but the first may be missing. `None` where
/// the version cannot be read.
pub open spec fn read_http_signature(value: Seq<char>, label: LabelView) -> Option<
    HttpSignatureView,
> {
    let parts = top_level(value, ':');
    let software = trim(piece(parts, 3));
    match read_http_version(piece(parts, 0)) {
        Some(http_minor_version) => Some(
            HttpSignatureView {
                specific: label.specific,
                label: label.label,
                http_minor_version,
                header_order: read_header_order(piece(parts, 1)),
                header_absent: read_absent(piece(parts, 2)),
                expected_software: if software.len() == 0 {
                    None
                } else {
                    Some(software)
                },
            },
        ),
        None => None,
    }
}

/// Reads an HTTP signature, under the label above it.
pub fn parse_http_sig(value: &[char], current: &PendingLabel) -> (r: Option<HttpSignature>)
    ensures
        match r {
            Some(sig) => read_http_signature(value@, current@) == Some(sig@),
            None => read_http_signature(value@, current@) is None,
        },
{
    let parts = split_top_level(value, ':');
    let none: Vec<char> = Vec::new();
    let ver = piece_of(&parts, 0, none.as_slice());
    let horder = piece_of(&parts, 1, none.as_slice());
    let habsent = piece_of(&parts, 2, none.as_slice());
    let software = text::trimmed(piece_of(&parts, 3, none.as_slice()));
    let http_minor_version: Option<u8> = if text::is_text(ver, "*") {
        None
    } else if text::is_text(ver, "0") {
        Some(0)
    } else if text::is_text(ver, "1") {
        Some(1)
    } else {
        return None;
    };
    Some(
        HttpSignature {
            specific: current.specific,
            label: current.label.clone(),
            http_minor_version,
            header_order: parse_header_order(horder),
            header_absent: parse_absent(habsent),
            expected_software: if software.len() == 0 {
                None
            } else {
                Some(text::string_of(software))
            },
        },
    )
}

// ---------------------------------------------------------------------------
// The database

/// The sections that are read, and everything else.
#[derive(Debug, Clone, Copy, PartialEq, Eq, Structural)]
pub enum Section {
    Other,
    TcpRequest,
    HttpRequest,
}

/// How far the reading of a database has come.
pub ghost struct ReadState {
    pub section: Section,
    pub pending: Option<LabelView>,
    pub tcp: Seq<TcpSignatureView>,
    pub http: Seq<HttpSignatureView>,
}

/// The name in a section header.
pub open spec fn section_name(line: Seq<char>) -> Option<Seq<char>> {
    match after_first(line, '[') {
        Some(rest) => before_last(rest, ']'),
        None => None,
    }
}

pub open spec fn section_of(name: Seq<char>) -> Section {
    if name == "tcp:request"@ {
        Section::TcpRequest
    } else if name == "http:request"@ {
        Section::HttpRequest
    } else {
        Section::Other
    }
}

/// What one line does: a section header opens a section and closes the label, a
/// `label` line sets the label, a `sig` line adds a signature to the section
/// under that label, and anything else is passed over.
pub open spec fn read_line(state: ReadState, raw: Seq<char>) -> ReadState {
    let line = trim(raw);
    if line.len() == 0 || line[0] == ';' {
        state
    } else if let Some(name) = section_name(line) {
        ReadState { section: section_of(name), pending: None, ..state }
    } else if let Some((key, value)) = cut(line, '=') {
        if trim(key) == "label"@ {
            ReadState { pending: read_label(trim(value)), ..state }
        } else if trim(key) == "sig"@ {
            match (state.pending, state.section) {
                (Some(label), Section::TcpRequest) => match read_tcp_signature(
                    trim(value),
                    label,
                ) {
                    Some(sig) => ReadState { tcp: state.tcp.push(sig), ..state },
                    None => state,
                },
                (Some(label), Section::HttpRequest) => match read_http_signature(
                    trim(value),
                    label,
                ) {
                    Some(sig) => ReadState { http: state.http.push(sig), ..state },
                    None => state,
                },
                _ => state,
            }
        } else {
            state
        }
    } else {
        state
    }
}

/// What a list of lines does, in order.
pub open spec fn read_lines(state: ReadState, lines: Seq<Seq<char>>) -> ReadState
    decreases lines.len(),
{
    if lines.len() == 0 {
        state
    } else {
        read_line(read_lines(state, lines.drop_last()), lines.last())
    }
}

/// Before the first line.
pub open spec fn read_start() -> ReadState {
    ReadState { section: Section::Other, pending: None, tcp: Seq::empty(), http: Seq::empty() }
}

/// What a database text holds.
pub open spec fn read_database(text: Seq<char>) -> ReadState {
    read_lines(read_start(), split(text, '\n'))
}

/// The label that is pending.
pub open spec fn pending_view(pending: Option<PendingLabel>) -> Option<LabelView> {
    match pending {
        Some(label) => Some(label@),
        None => None,
    }
}

/// Reads a fingerprint database. Nothing in it makes the reading fail: what
/// cannot be read is left out.
pub fn parse(text: &str) -> (db: P0fDb)
    ensures
        tcp_views(db.tcp_request@) == read_database(text@).tcp,
        http_views(db.http_request@) == read_database(text@).http,
{
    let chars = text::chars_of(text);
    let lines = text::split_on(chars.as_slice(), '\n');
    let mut db = P0fDb { tcp_request: Vec::new(), http_request: Vec::new() };
    let mut section = Section::Other;
    let mut pending: Option<PendingLabel> = None;
    let ghost all = texts(lines@);
    let mut i: usize = 0;
    assert(tcp_views(db.tcp_request@) =~= Seq::empty());
    assert(http_views(db.http_request@) =~= Seq::empty());
    while i < lines.len()
        invariant
            i <= lines@.len(),
            all == texts(lines@),
            all == split(text@, '\n'),
            read_lines(read_start(), all.take(i as int)) == (ReadState {
                section,
                pending: pending_view(pending),
                tcp: tcp_views(db.tcp_request@),
                http: http_views(db.http_request@),
            }),
        decreases lines@.len() - i,
    {
        let ghost state = read_lines(read_start(), all.take(i as int));
        let ghost raw = all[i as int];
        proof {
            assert(all.take(i + 1).drop_last() =~= all.take(i as int));
            assert(all.take(i + 1).last() == raw);
            assert(raw == lines@[i as int]@);
        }
        let line = text::trimmed(lines[i]);
        i = i + 1;
        if line.len() == 0 || line[0] == ';' {
            continue ;
        }
        let header = match text::strip_first(line, '[') {
            Some(rest) => text::strip_last(rest, ']'),
            None => None,
        };
        if let Some(name) = header {
            section =
            if text::is_text(name, "tcp:request") {
                Section::TcpRequest
            } else if text::is_text(name, "http:request") {
                Section::HttpRequest
            } else {
                Section::Other
            };
            pending = None;
            continue ;
        }
        if let Some((key, value)) = text::split_once(line, '=') {
            let value = text::trimmed(value);
            let key = text::trimmed(key);
            if text::is_text(key, "label") {
                pending = parse_label(value);
            } else if text::is_text(key, "sig") {
                if let Some(current) = &pending {
                    match section {
                        Section::TcpRequest => {
                            if let Some(sig) = parse_tcp_sig(value, current) {
                                db.tcp_request.push(sig);
                                assert(tcp_views(db.tcp_request@) =~= state.tcp.push(sig@));
                            }
                        },
                        Section::HttpRequest => {
                            if let Some(sig) = parse_http_sig(value, current) {
                                db.http_request.push(sig);
                                assert(http_views(db.http_request@) =~= state.http.push(sig@));
                            }
                        },
                        Section::Other => {},
                    }
                }
            }
        }
    }
    assert(all.take(i as int) =~= all);
    db
}

// ---------------------------------------------------------------------------
// Laws

/// Whether a line is passed over wherever it stands: it is blank, a comment, or
/// neither a section header nor a `label` or `sig` line.
pub open spec fn passed_over(raw: Seq<char>) -> bool {
    let line = trim(raw);
    ||| line.len() == 0
    ||| line[0] == ';'
    ||| section_name(line) is None && match cut(line, '=') {
        Some((key, _)) => trim(key) != "label"@ && trim(key) != "sig"@,
        None => true,
    }
}

proof fn lemma_read_lines_split(state: ReadState, a: Seq<Seq<char>>, b: Seq<Seq<char>>)
    ensures
        read_lines(state, a + b) == read_lines(read_lines(state, a), b),
    decreases b.len(),
{
    if b.len() == 0 {
        assert(a + b =~= a);
    } else {
        assert((a + b).drop_last() =~= a + b.drop_last());
        assert((a + b).last() == b.last());
        lemma_read_lines_split(state, a, b.drop_last());
    }
}

/// A line that means nothing here changes nothing: the database reads as if it
/// were not there.
pub proof fn unknown_lines_are_dropped(
    before: Seq<Seq<char>>,
    line: Seq<char>,
    after: Seq<Seq<char>>,
)
    requires
        passed_over(line),
    ensures
        read_lines(read_start(), before + seq![line] + after) == read_lines(
            read_start(),
            before + after,
        ),
{
    lemma_read_lines_split(read_start(), before + seq![line], after);
    lemma_read_lines_split(read_start(), before, seq![line]);
    lemma_read_lines_split(read_start(), before, after);
    let state = read_lines(read_start(), before);
    assert(seq![line].drop_last() =~= Seq::<Seq<char>>::empty());
    assert(read_lines(state, seq![line]) == read_line(state, line)) by {
        reveal_with_fuel(read_lines, 2);
    }
}

/// A signature line of which any field cannot be read changes nothing, whatever the
/// section and the label that it stands under.
pub proof fn unreadable_signatures_are_dropped(state: ReadState, raw: Seq<char>)
    requires
        cut(trim(raw), '=') matches Some((key, value)) && trim(key) == "sig"@ && (
        state.pending matches Some(label) ==> match state.section {
            Section::TcpRequest => read_tcp_signature(trim(value), label) is None,
            Section::HttpRequest => read_http_signature(trim(value), label) is None,
            Section::Other => true,
        }),
        section_name(trim(raw)) is None,
    ensures
        read_line(state, raw) == state,
{
    reveal_strlit("label");
    reveal_strlit("sig");
    assert("label"@.len() != "sig"@.len());
}

/// No field of a TCP signature is guessed: one that is read asks for any MSS, any scale
/// or any window only where it says so, and every option, the padding and the payload
/// class are written out.
pub proof fn no_field_is_guessed(value: Seq<char>, label: LabelView)
    requires
        read_tcp_signature(value, label) is Some,
    ensures
        ({
            let fields = split_at_most(value, 8, ':');
            let sig = read_tcp_signature(value, label)->0;
            let (wsize, scale) = cut(fields[4], ',')->0;
            &&& fields.len() >= 8
            &&& sig.ip_version is None ==> fields[0] == "*"@
            &&& sig.mss is None ==> fields[3] == "*"@
            &&& sig.window == WindowSpec::Any ==> wsize == "*"@
            &&& sig.window_scale is None ==> scale == "*"@
            &&& all_options(non_empty(split(fields[5], ',')))
            &&& sig.payload_class == PayloadClass::Any ==> fields[7] == "*"@
        }),
{
}

/// A signature line adds nothing in a section that is not read.
pub proof fn other_sections_are_skipped(state: ReadState, raw: Seq<char>)
    requires
        state.section == Section::Other,
    ensures
        read_line(state, raw).tcp == state.tcp,
        read_line(state, raw).http == state.http,
{
}

/// What has been read stays: every line only adds signatures at the end.
pub proof fn signatures_accumulate(state: ReadState, raw: Seq<char>)
    ensures
        state.tcp.is_prefix_of(read_line(state, raw).tcp),
        state.http.is_prefix_of(read_line(state, raw).http),
{
}

// ---------------------------------------------------------------------------
// What the notation means

proof fn lemma_number(n: nat, max: nat)
    ensures
        n <= max ==> unsigned(decimal(n), max) == Some(n),
        n > max ==> unsigned(decimal(n), max) is None,
        decimal(n).len() > 0,
        forall|i: int| 0 <= i < decimal(n).len() ==> '0' <= #[trigger] decimal(n)[i] <= '9',
{
    text::decimal_reads_back(n);
    text::numbers_are_written_in_digits(n);
    if n <= max {
        text::unsigned_reads_decimal(n, max);
    }
}

/// A window is any (`*`), a number up to 65535, a number of segments (`mss*n`), a number
/// of MTUs (`mtu*n`) or a multiple (`%n`).
pub proof fn windows_are_written_so(n: nat)
    ensures
        read_window("*"@) == Some(WindowSpec::Any),
        n <= 65535 ==> read_window(decimal(n)) == Some(WindowSpec::Fixed(n as u16)),
        n > 65535 ==> read_window(decimal(n)) is None,
        n <= 0xffff_ffff ==> read_window("mss*"@ + decimal(n)) == Some(
            WindowSpec::MssMultiple(n as u32),
        ),
        n <= 0xffff_ffff ==> read_window("mtu*"@ + decimal(n)) == Some(
            WindowSpec::MtuMultiple(n as u32),
        ),
        n <= 0xffff_ffff ==> read_window("%"@ + decimal(n)) == Some(WindowSpec::Modulo(n as u32)),
        n > 0xffff_ffff ==> read_window("mss*"@ + decimal(n)) is None,
        read_window(Seq::empty()) is None,
{
    reveal_strlit("*");
    reveal_strlit("mss*");
    reveal_strlit("mtu*");
    reveal_strlit("%");
    lemma_number(n, 65535);
    lemma_number(n, 0xffff_ffff);
    let number = decimal(n);
    text::beginnings_can_be_taken_off("mss*"@ + number, "mss*"@, number);
    text::beginnings_can_be_taken_off("mtu*"@ + number, "mtu*"@, number);
    text::beginnings_can_be_taken_off("mtu*"@ + number, "mss*"@, number);
    text::beginnings_can_be_taken_off("%"@ + number, "mss*"@, number);
    text::beginnings_can_be_taken_off("%"@ + number, "mtu*"@, number);
    text::beginnings_can_be_taken_off(number, "mss*"@, number);
    text::beginnings_can_be_taken_off(number, "mtu*"@, number);
    assert(("mss*"@ + number)[0] == 'm' && ("mtu*"@ + number)[0] == 'm');
    assert(("mtu*"@ + number)[1] == 't');
    assert(("%"@ + number)[0] == '%');
    assert(("%"@ + number).skip(1) =~= number);
    assert(number[0] != '*' && number[0] != '%' && number[0] != 'm');
    assert("mss*"@[0] == 'm' && "mss*"@[1] == 's' && "mtu*"@[0] == 'm');
    let none = Seq::<char>::empty();
    text::beginnings_can_be_taken_off(none, "mss*"@, none);
    text::beginnings_can_be_taken_off(none, "mtu*"@, none);
}

/// An initial TTL is a number up to 255, and a ceiling with a `-` behind it.
pub proof fn ttls_are_written_so(n: nat)
    ensures
        n <= 255 ==> read_ttl(decimal(n)) == Some((false, n as u8)),
        n <= 255 ==> read_ttl(decimal(n) + seq!['-']) == Some((true, n as u8)),
        n > 255 ==> read_ttl(decimal(n)) is None,
        read_ttl(Seq::empty()) is None,
{
    lemma_number(n, 255);
    let number = decimal(n);
    assert('0' <= number[number.len() - 1] <= '9');
    assert((number + seq!['-']).drop_last() =~= number);
}

/// An MSS is any (`*`) or a number up to 65535, a scale any or one up to 255, an IP version
/// any, 4 or 6, an HTTP version any, 0 or 1, and a payload any, none (`0`) or some (`+`).
pub proof fn small_fields_are_written_so(token: Seq<char>, n: nat)
    ensures
        read_mss("*"@) == Some(None::<u16>),
        n <= 65535 ==> read_mss(decimal(n)) == Some(Some(n as u16)),
        n > 65535 ==> read_mss(decimal(n)) is None,
        read_scale("*"@) == Some(None::<u8>),
        n <= 255 ==> read_scale(decimal(n)) == Some(Some(n as u8)),
        n > 255 ==> read_scale(decimal(n)) is None,
        read_version("*"@) == Some(None::<u8>),
        read_version("4"@) == Some(Some(4u8)),
        read_version("6"@) == Some(Some(6u8)),
        token != "*"@ && token != "4"@ && token != "6"@ ==> read_version(token) is None,
        read_http_version("*"@) == Some(None::<u8>),
        read_http_version("0"@) == Some(Some(0u8)),
        read_http_version("1"@) == Some(Some(1u8)),
        token != "*"@ && token != "0"@ && token != "1"@ ==> read_http_version(token) is None,
        read_payload_class("*"@) == Some(PayloadClass::Any),
        read_payload_class("0"@) == Some(PayloadClass::Zero),
        read_payload_class("+"@) == Some(PayloadClass::NonZero),
        token != "*"@ && token != "0"@ && token != "+"@ ==> read_payload_class(token) is None,
{
    reveal_strlit("*");
    reveal_strlit("0");
    reveal_strlit("1");
    reveal_strlit("4");
    reveal_strlit("6");
    reveal_strlit("+");
    lemma_number(n, 65535);
    lemma_number(n, 255);
    assert(decimal(n)[0] != '*');
    assert("*"@[0] == '*' && "0"@[0] == '0' && "1"@[0] == '1' && "4"@[0] == '4' && "6"@[0] == '6'
        && "+"@[0] == '+');
}

/// The options of a layout go by these names, and one without a name by a `?` and its
/// kind; the EOL option has its padding behind it.
pub proof fn options_are_written_so(n: nat)
    ensures
        read_option("mss"@) == Some(TcpOptionKind::Mss),
        read_option("nop"@) == Some(TcpOptionKind::Nop),
        read_option("ws"@) == Some(TcpOptionKind::WindowScale),
        read_option("sok"@) == Some(TcpOptionKind::SackPermitted),
        read_option("sack"@) == Some(TcpOptionKind::Sack),
        read_option("ts"@) == Some(TcpOptionKind::Timestamp),
        read_option("eol"@) == Some(TcpOptionKind::Eol),
        read_option("eol+"@ + decimal(n)) == (if n <= 255 {
            Some(TcpOptionKind::Eol)
        } else {
            None
        }),
        read_option("?"@ + decimal(n)) == (if n <= 255 {
            Some(TcpOptionKind::Other(n as u8))
        } else {
            None
        }),
        n <= 255 ==> read_padding(seq!["eol+"@ + decimal(n)]) == Some(n as u8),
        read_padding(seq!["eol"@]) == Some(0u8),
        read_padding(seq!["mss"@]) is None,
{
    reveal_strlit("mss");
    reveal_strlit("nop");
    reveal_strlit("ws");
    reveal_strlit("sok");
    reveal_strlit("sack");
    reveal_strlit("ts");
    reveal_strlit("eol");
    reveal_strlit("eol+");
    reveal_strlit("?");
    lemma_number(n, 255);
    let number = decimal(n);
    let padded = "eol+"@ + number;
    assert(padded =~= "eol"@ + (seq!['+'] + number));
    text::beginnings_can_be_taken_off(padded, "eol"@, seq!['+'] + number);
    text::beginnings_can_be_taken_off("eol"@, "eol"@, Seq::empty());
    assert("eol"@ + Seq::<char>::empty() =~= "eol"@);
    assert((seq!['+'] + number).skip(1) =~= number);
    assert(("?"@ + number).skip(1) =~= number);
    assert(("?"@ + number)[0] == '?');
    assert(padded[0] == 'e' && padded.len() >= 5);
    assert("mss"@[0] == 'm' && "nop"@[0] == 'n' && "ws"@[0] == 'w' && "sok"@[0] == 's' && "sok"@[1]
        == 'o' && "sack"@[0] == 's' && "sack"@[1] == 'a' && "ts"@[0] == 't' && "eol"@[0] == 'e');
    text::beginnings_can_be_taken_off("mss"@, "eol"@, Seq::empty());
    reveal_with_fuel(read_padding, 2);
    assert(seq!["mss"@].skip(1).len() == 0);
}

/// A label is `type:class:name:flavor`: specific where its type is `s`, and shown by its
/// name and, behind a space, its flavor where it has one. Name and flavor may be left out,
/// the class may not.
pub proof fn labels_are_written_so(
    kind: Seq<char>,
    class: Seq<char>,
    name: Seq<char>,
    flavor: Seq<char>,
)
    requires
        !kind.contains(':'),
        !class.contains(':'),
        !name.contains(':'),
    ensures
        read_label(kind + seq![':'] + class + seq![':'] + name + seq![':'] + flavor) matches Some(
            label,
        ) && {
            &&& label.specific == (kind == seq!['s'])
            &&& label.class == class
            &&& trim(flavor).len() == 0 ==> label.label == trim(name)
            &&& trim(flavor).len() > 0 ==> label.label == trim(name) + seq![' '] + trim(flavor)
        },
        read_label(kind + seq![':'] + class + seq![':'] + name) matches Some(label) && {
            &&& label.specific == (kind == seq!['s'])
            &&& label.class == class
            &&& label.label == trim(name)
        },
        read_label(kind + seq![':'] + class) matches Some(label) && {
            &&& label.specific == (kind == seq!['s'])
            &&& label.class == class
            &&& label.label.len() == 0
        },
        read_label(kind) is None,
{
    reveal_strlit("s");
    assert("s"@ =~= seq!['s']);
    let c = seq![':'];
    let one = name + c + flavor;
    assert(kind + c + class + c + name + c + flavor =~= kind + c + (class + c + (name + c
        + flavor)));
    assert(kind + c + class + c + name =~= kind + c + (class + c + name));
    text::bounded_splitting_takes_the_front(kind, class + c + (name + c + flavor), 4, ':');
    text::bounded_splitting_takes_the_front(class, name + c + flavor, 3, ':');
    text::bounded_splitting_takes_the_front(name, flavor, 2, ':');
    text::bounded_splitting_takes_the_front(kind, class + c + name, 4, ':');
    text::bounded_splitting_takes_the_front(class, name, 3, ':');
    text::bounded_splitting_takes_the_front(kind, class, 4, ':');
    text::bounded_splitting_takes_the_front(class, flavor, 3, ':');
    let none = Seq::<char>::empty();
    assert(trim(none) =~= none);
    assert(trim(name).push(' ') + trim(flavor) =~= trim(name) + seq![' '] + trim(flavor));
}

/// A TCP signature is eight fields with colons between them, each read on its own: the IP
/// version, the initial TTL, one that is not looked at, the MSS, the window with the scale
/// behind a comma, the option layout, the quirks and the payload class. It is read exactly
/// where each of them is, and stands under the label above it.
pub proof fn tcp_signatures_are_written_so(fields: Seq<Seq<char>>, label: LabelView)
    requires
        fields.len() == 8,
        forall|i: int| 0 <= i < 7 ==> !(#[trigger] fields[i]).contains(':'),
    ensures
        ({
            let value = join(fields, seq![':']);
            let readable = {
                &&& read_version(fields[0]) is Some
                &&& read_ttl(fields[1]) is Some
                &&& read_mss(fields[3]) is Some
                &&& cut(fields[4], ',') matches Some((wsize, scale)) && read_window(wsize) is Some
                    && read_scale(scale) is Some
                &&& read_layout(split(fields[5], ',')) is Some
                &&& read_payload_class(fields[7]) is Some
            };
            match read_tcp_signature(value, label) {
                Some(sig) => {
                    let (wsize, scale) = cut(fields[4], ',')->0;
                    &&& readable
                    &&& sig.specific == label.specific
                    &&& sig.class == label.class
                    &&& sig.label == label.label
                    &&& sig.raw == trim(value)
                    &&& Some(sig.ip_version) == read_version(fields[0])
                    &&& Some((sig.ittl_is_ceiling, sig.initial_ttl)) == read_ttl(fields[1])
                    &&& Some(sig.mss) == read_mss(fields[3])
                    &&& Some(sig.window) == read_window(wsize)
                    &&& Some(sig.window_scale) == read_scale(scale)
                    &&& Some(sig.option_layout) == read_layout(split(fields[5], ','))
                    &&& sig.eol_padding == read_padding(split(fields[5], ','))
                    &&& sig.quirks == non_empty(split(fields[6], ','))
                    &&& Some(sig.payload_class) == read_payload_class(fields[7])
                },
                None => !readable,
            }
        }),
{
    text::bounded_splitting_undoes_joining(fields, ':');
}

/// A layout is its tokens with commas between them, in order: where each of them stands
/// for an option, it is these options.
pub proof fn layouts_are_written_so(tokens: Seq<Seq<char>>, i: int)
    requires
        0 <= i < tokens.len(),
        forall|k: int| 0 <= k < tokens.len() ==> (#[trigger] tokens[k]).len() > 0,
    ensures
        match read_layout(tokens) {
            Some(options) => options.len() == tokens.len() && read_option(tokens[i]) == Some(
                options[i],
            ),
            None => exists|k: int|
                0 <= k < tokens.len() && read_option(#[trigger] tokens[k]) is None,
        },
        read_option(tokens[i]) is None ==> read_layout(tokens) is None,
{
    lemma_nothing_dropped(tokens);
}

proof fn lemma_nothing_dropped(pieces: Seq<Seq<char>>)
    requires
        forall|k: int| 0 <= k < pieces.len() ==> (#[trigger] pieces[k]).len() > 0,
    ensures
        non_empty(pieces) == pieces,
    decreases pieces.len(),
{
    let keep = |piece: Seq<char>| piece.len() > 0;
    if pieces.len() == 0 {
        reveal(Seq::filter);
        assert(non_empty(pieces) =~= pieces);
    } else {
        let head = pieces.drop_last();
        assert forall|k: int| 0 <= k < head.len() implies (#[trigger] head[k]).len() > 0 by {
            assert(head[k] == pieces[k]);
        }
        lemma_nothing_dropped(head);
        assert(pieces =~= head.push(pieces.last()));
        head.lemma_filter_push(pieces.last(), keep);
    }
}

// ---------------------------------------------------------------------------
// Brackets

/// Brackets are counted from the front: an opening one adds, a closing one takes away.
pub proof fn brackets_are_counted(s: Seq<char>, i: int)
    requires
        0 <= i < s.len(),
    ensures
        bracket_depth(s, 0) == 0,
        s[i] == '[' ==> bracket_depth(s, i + 1) == bracket_depth(s, i) + 1,
        s[i] == ']' ==> bracket_depth(s, i + 1) == bracket_depth(s, i) - 1,
        s[i] != '[' && s[i] != ']' ==> bracket_depth(s, i + 1) == bracket_depth(s, i),
{
}

proof fn lemma_next(s: Seq<char>, delim: char, i: int)
    requires
        0 <= i <= s.len(),
    ensures
        ({
            let p = next_top_level(s, delim, i);
            &&& i <= p <= s.len()
            &&& p < s.len() ==> top_level_at(s, delim, p)
            &&& forall|j: int| i <= j < p ==> !#[trigger] top_level_at(s, delim, j)
        }),
    decreases s.len() - i,
{
    if i < s.len() && !top_level_at(s, delim, i) {
        lemma_next(s, delim, i + 1);
    }
}

/// Where the pieces of a text are cut: at the separators outside all brackets, and nowhere
/// else. A text without such a separator is one piece; else its first piece goes up to the
/// first of them.
pub proof fn pieces_are_cut_outside_brackets(s: Seq<char>, delim: char, i: int)
    requires
        delim != '[',
        delim != ']',
        0 <= i <= s.len(),
        forall|j: int|
            0 <= j < i ==> (#[trigger] s[j] != delim || bracket_depth(s, j) > 0),
        i < s.len() ==> s[i] == delim && bracket_depth(s, i) <= 0,
    ensures
        i == s.len() ==> top_level(s, delim) == seq![s],
        i < s.len() ==> top_level(s, delim)[0] == s.take(i),
        i < s.len() && bracket_depth(s, i) == 0 ==> top_level(s, delim) == seq![s.take(i)]
            + top_level(s.skip(i + 1), delim),
{
    lemma_next(s, delim, 0);
    let p = next_top_level(s, delim, 0);
    if p < i {
        assert(s[p] != delim || bracket_depth(s, p) > 0);
    }
    if i < p {
        assert(!top_level_at(s, delim, i));
    }
    assert(p == i);
    assert(s.subrange(0, i) =~= s.take(i));
    if i == s.len() {
        assert(s.subrange(0, s.len() as int) =~= s);
    } else if bracket_depth(s, i) == 0 {
        lemma_shifted_pieces(s, delim, i + 1, 0);
    }
}

proof fn lemma_shifted_depth(s: Seq<char>, from: int, i: int)
    requires
        0 <= from <= s.len(),
        0 <= i <= s.len() - from,
        bracket_depth(s, from) == 0,
    ensures
        bracket_depth(s.skip(from), i) == bracket_depth(s, from + i),
    decreases i,
{
    if i > 0 {
        lemma_shifted_depth(s, from, i - 1);
        assert(s.skip(from)[i - 1] == s[from + i - 1]);
    }
}

proof fn lemma_shifted_next(s: Seq<char>, delim: char, from: int, i: int)
    requires
        0 <= from <= s.len(),
        0 <= i <= s.len() - from,
        bracket_depth(s, from) == 0,
    ensures
        next_top_level(s.skip(from), delim, i) == next_top_level(s, delim, from + i) - from,
    decreases s.len() - from - i,
{
    if i < s.len() - from {
        lemma_shifted_depth(s, from, i);
        assert(s.skip(from)[i] == s[from + i]);
        if !top_level_at(s, delim, from + i) {
            lemma_shifted_next(s, delim, from, i + 1);
        }
    }
}

proof fn lemma_shifted_pieces(s: Seq<char>, delim: char, from: int, i: int)
    requires
        0 < from <= s.len(),
        0 <= i <= s.len() - from,
        s[from - 1] == delim,
        delim != '[',
        delim != ']',
        bracket_depth(s, from - 1) == 0,
    ensures
        top_level_from(s.skip(from), delim, i) == top_level_from(s, delim, from + i),
    decreases s.len() - from - i,
{
    let rest = s.skip(from);
    lemma_next(s, delim, from + i);
    lemma_shifted_next(s, delim, from, i);
    let p = next_top_level(s, delim, from + i);
    if p < s.len() {
        lemma_shifted_pieces(s, delim, from, p + 1 - from);
        assert(rest.subrange(i, p - from) =~= s.subrange(from + i, p));
    } else {
        assert(rest.subrange(i, rest.len() as int) =~= s.subrange(from + i, s.len() as int));
    }
}

// ---------------------------------------------------------------------------
// HTTP signatures

/// An expected header is a name, in any case and with white space round it. A `?` in front
/// makes it optional and changes nothing else; a text in `=[` and `]` behind it is what the
/// value must hold.
pub proof fn headers_are_written_so(name: Seq<char>, value: Seq<char>)
    requires
        !name.contains('='),
        name.len() > 0 ==> name[0] != '?',
    ensures
        ({
            let plain = read_header(name);
            &&& plain.name == lower(trim(name))
            &&& plain.value_contains is None
            &&& !plain.optional
        }),
        ({
            let asked = read_header(name + seq!['=', '['] + value + seq![']']);
            &&& asked.name == lower(trim(name))
            &&& asked.value_contains == Some(value)
            &&& !asked.optional
        }),
        read_header(seq!['?'] + name) == (HeaderView { optional: true, ..read_header(name) }),
        read_header(seq!['?'] + (name + seq!['=', '['] + value + seq![']'])) == (HeaderView {
            optional: true,
            ..read_header(name + seq!['=', '['] + value + seq![']'])
        }),
{
    reveal_strlit("=[");
    let open = seq!['=', '['];
    assert("=["@ =~= open);
    let full = name + open + value + seq![']'];
    assert((seq!['?'] + name).skip(1) =~= name);
    assert((seq!['?'] + full).skip(1) =~= full);
    assert(full[0] == (if name.len() > 0 {
        name[0]
    } else {
        '='
    }));
    text::lemma_first_occurrence(name, open);
    if let Some(i) = first_occurrence(name, open) {
        assert(name.subrange(i, i + 2)[0] == name[i]);
        assert(open[0] == '=');
        assert(name.contains('='));
    }
    text::lemma_first_occurrence(full, open);
    text::occurrences_stand_inside(name, open, value + seq![']'], full);
    assert(name + open + (value + seq![']']) =~= full);
    let at = first_occurrence(full, open)->0;
    assert(full.subrange(at, at + 2)[0] == full[at]);
    if at < name.len() {
        assert(full[at] == name[at]);
        assert(name.contains('='));
    }
    if at > name.len() {
        assert(full.skip(name.len() as int).take(2) =~= open);
        assert(text::begins(full.skip(name.len() as int), open));
    }
    assert(at == name.len());
    assert(full.take(at) =~= name);
    assert(full.skip(at + 2) =~= value + seq![']']);
    assert((value + seq![']']).drop_last() =~= value);
}

/// The list of expected headers is its pieces, each read on its own, and that of absent
/// ones its pieces in lower case; a piece of white space alone is none.
pub proof fn header_lists_are_written_so(list: Seq<char>, i: int)
    requires
        0 <= i < top_level(list, ',').len(),
        forall|k: int|
            0 <= k < top_level(list, ',').len() ==> trim(
                #[trigger] top_level(list, ',')[k],
            ).len() > 0,
    ensures
        read_header_order(list).len() == top_level(list, ',').len(),
        read_header_order(list)[i] == read_header(trim(top_level(list, ',')[i])),
        read_absent(list).len() == top_level(list, ',').len(),
        read_absent(list)[i] == lower(trim(top_level(list, ',')[i])),
{
    let pieces = trim_all(top_level(list, ','));
    assert forall|k: int| 0 <= k < pieces.len() implies (#[trigger] pieces[k]).len() > 0 by {
        assert(pieces[k] == trim(top_level(list, ',')[k]));
    }
    lemma_nothing_dropped(pieces);
}

/// An HTTP signature is its version, the expected headers, the absent ones and the
/// expected software, with colons between them. It is read exactly where its version is.
pub proof fn http_signatures_are_written_so(value: Seq<char>, label: LabelView)
    requires
        top_level(value, ':').len() >= 4,
    ensures
        ({
            let parts = top_level(value, ':');
            match read_http_signature(value, label) {
                Some(sig) => {
                    &&& Some(sig.http_minor_version) == read_http_version(parts[0])
                    &&& sig.header_order == read_header_order(parts[1])
                    &&& sig.header_absent == read_absent(parts[2])
                    &&& trim(parts[3]).len() == 0 ==> sig.expected_software is None
                    &&& trim(parts[3]).len() > 0 ==> sig.expected_software == Some(trim(parts[3]))
                    &&& sig.specific == label.specific
                    &&& sig.label == label.label
                },
                None => read_http_version(parts[0]) is None,
            }
        }),
{
}

// ---------------------------------------------------------------------------
// Lines

/// A database is read line by line, from nothing: no section, no label, no signature.
pub proof fn databases_are_read_line_by_line(lines: Seq<Seq<char>>, line: Seq<char>)
    requires
        !line.contains('\n'),
        forall|i: int| 0 <= i < lines.len() ==> !(#[trigger] lines[i]).contains('\n'),
        lines.len() > 0,
    ensures
        ({
            let before = read_database(join(lines, seq!['\n']));
            let after = read_database(join(lines, seq!['\n']) + seq!['\n'] + line);
            after == read_line(before, line)
        }),
        ({
            let one = read_database(line);
            let start = ReadState {
                section: Section::Other,
                pending: None,
                tcp: Seq::empty(),
                http: Seq::empty(),
            };
            one == read_line(start, line)
        }),
{
    let all = lines.push(line);
    assert forall|i: int| 0 <= i < all.len() implies !(#[trigger] all[i]).contains('\n') by {
        if i < lines.len() {
            assert(all[i] == lines[i]);
        }
    }
    text::joining_goes_piece_by_piece(lines, line, seq!['\n']);
    text::split_undoes_join(lines, '\n');
    text::split_undoes_join(all, '\n');
    assert(all.drop_last() =~= lines);
    let single = seq![line];
    assert forall|i: int| 0 <= i < single.len() implies !(#[trigger] single[i]).contains(
        '\n',
    ) by {
        assert(single[i] == line);
    }
    text::split_undoes_join(single, '\n');
    assert(single.drop_last() =~= Seq::empty());
    assert(read_lines(read_start(), single.drop_last()) == read_start());
}

/// A line of a name in brackets opens a section, and closes the label. Two sections are
/// read, `tcp:request` and `http:request`.
pub proof fn sections_are_opened_by_name(state: ReadState, name: Seq<char>)
    ensures
        ({
            let after = read_line(state, seq!['['] + name + seq![']']);
            &&& after.pending is None
            &&& after.tcp == state.tcp
            &&& after.http == state.http
            &&& name == "tcp:request"@ ==> after.section == Section::TcpRequest
            &&& name == "http:request"@ ==> after.section == Section::HttpRequest
            &&& name != "tcp:request"@ && name != "http:request"@ ==> after.section
                == Section::Other
        }),
{
    reveal_strlit("tcp:request");
    reveal_strlit("http:request");
    assert("tcp:request"@.len() != "http:request"@.len());
    let line = seq!['['] + name + seq![']'];
    text::white_space_by_number('[');
    text::white_space_by_number(']');
    text::trimming_undoes_padding(Seq::empty(), line, Seq::empty());
    assert(line.skip(1).drop_last() =~= name);
    assert(line.skip(1).last() == ']');
}

/// A line behind a semicolon is a comment, whatever it says.
pub proof fn comments_say_nothing(state: ReadState, rest: Seq<char>)
    ensures
        read_line(state, seq![';'] + rest) == state,
        read_line(state, Seq::empty()) == state,
{
    let line = seq![';'] + rest;
    let (a, b) = text::trimming_takes_white_space_off_both_ends(line);
    text::white_space_by_number(';');
    if a > 0 {
        assert(white_space(line[0]));
    }
    if b == 0 {
        assert(white_space(line[0]));
    }
    assert(trim(line)[0] == ';');
    assert(trim(Seq::<char>::empty()) =~= Seq::empty());
}

proof fn lemma_assignment(key: Seq<char>, value: Seq<char>)
    requires
        key.len() > 0,
        !white_space(key[0]),
        !white_space(key.last()),
        key[0] != '[',
        key[0] != ';',
        !key.contains('='),
        value.len() > 0,
        !white_space(value[0]),
        !white_space(value.last()),
    ensures
        ({
            let line = key + seq![' ', '=', ' '] + value;
            &&& trim(line) == line
            &&& line[0] == key[0]
            &&& section_name(line) is None
            &&& cut(line, '=') matches Some((k, v)) && trim(k) == key && trim(v) == value
        }),
{
    let line = key + seq![' ', '=', ' '] + value;
    let none = Seq::<char>::empty();
    text::white_space_by_number(' ');
    assert(line.last() == value.last());
    text::trimming_undoes_padding(none, line, none);
    let (k, v) = (key + seq![' '], seq![' '] + value);
    assert(line =~= k + seq!['='] + v);
    assert forall|i: int| 0 <= i < k.len() implies k[i] != '=' by {
        if i < key.len() {
            assert(k[i] == key[i]);
        }
    }
    text::cuts_are_at_the_first(line, '=', k, v);
    text::trimming_undoes_padding(none, key, seq![' ']);
    text::trimming_undoes_padding(seq![' '], value, none);
    assert(none + key + seq![' '] =~= k);
    assert(seq![' '] + value + none =~= v);
}

/// A line `label = value` sets the label that the signatures below it stand under, and
/// nothing else.
pub proof fn label_lines_set_the_label(state: ReadState, value: Seq<char>)
    requires
        value.len() > 0,
        !white_space(value[0]),
        !white_space(value.last()),
    ensures
        read_line(state, "label"@ + seq![' ', '=', ' '] + value) == (ReadState {
            pending: read_label(value),
            ..state
        }),
{
    reveal_strlit("label");
    text::white_space_by_number('l');
    lemma_assignment("label"@, value);
}

/// A line `sig = value` adds one signature at the end of those of its section, under the
/// label above it, where it can be read. Without a label, in another section, or where it
/// cannot be read, it adds nothing.
pub proof fn signature_lines_add_one(state: ReadState, value: Seq<char>)
    requires
        value.len() > 0,
        !white_space(value[0]),
        !white_space(value.last()),
    ensures
        ({
            let after = read_line(state, "sig"@ + seq![' ', '=', ' '] + value);
            &&& after.section == state.section
            &&& after.pending == state.pending
            &&& state.pending is None ==> after == state
            &&& state.section == Section::Other ==> after == state
            &&& state.pending matches Some(label) ==> {
                &&& state.section == Section::TcpRequest ==> after.http == state.http
                    && match read_tcp_signature(value, label) {
                    Some(sig) => after.tcp == state.tcp.push(sig),
                    None => after.tcp == state.tcp,
                }
                &&& state.section == Section::HttpRequest ==> after.tcp == state.tcp
                    && match read_http_signature(value, label) {
                    Some(sig) => after.http == state.http.push(sig),
                    None => after.http == state.http,
                }
            }
        }),
{
    reveal_strlit("label");
    reveal_strlit("sig");
    assert("label"@.len() != "sig"@.len());
    text::white_space_by_number('s');
    text::white_space_by_number('g');
    lemma_assignment("sig"@, value);
}

} // verus!
