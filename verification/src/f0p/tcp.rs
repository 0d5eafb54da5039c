//! Matching a SYN against the `[tcp:request]` signatures, and writing it in the
//! same notation.

use vstd::prelude::*;

use crate::f0p::format::{
    options_of, read_layout, read_option, read_padding, read_padding_count, tcp_views, PayloadClass,
    TcpSignature, TcpSignatureView, WindowSpec,
};
use crate::f0p::score::{all_valid, first_best, last_best, pick_first_best, pick_last_best};
use crate::f0p::score::{best_exists, lemma_passed, MinScore, Score};
use crate::observation::{TcpFeatures, TcpFeaturesView, TcpOptionKind};
use crate::text;
use crate::text::{decimal, join, non_empty, split, strings};
use crate::f0p::score::{lemma_passed_parts, passed};
use crate::text::{decimal_reads_back, is_digit, joining_goes_piece_by_piece, split_undoes_join};

verus! {

/// A signature's initial TTL further away than this is not taken for a distance.
pub const MAX_PLAUSIBLE_HOPS: u8 = 40;

/// The smallest of the TTLs that stacks commonly start with, 32, 64, 128 and
/// 255, that is not below the observed one.
pub open spec fn likely_initial_ttl(observed: u8) -> u8 {
    if observed <= 32 {
        32
    } else if observed <= 64 {
        64
    } else if observed <= 128 {
        128
    } else {
        255
    }
}

/// Guesses the TTL a segment was sent with.
pub fn nearest_initial_ttl(observed: u8) -> (r: u8)
    ensures
        r == likely_initial_ttl(observed),
        r >= observed,
{
    if observed <= 32 {
        32
    } else if observed <= 64 {
        64
    } else if observed <= 128 {
        128
    } else {
        255
    }
}

// ---------------------------------------------------------------------------
// Scoring

/// One check, or none.
#[verifier::opaque]
pub open spec fn check_if(made: bool, ok: bool) -> Seq<bool> {
    if made {
        seq![ok]
    } else {
        Seq::empty()
    }
}

/// Whether an observed TTL can stem from the initial TTL of a signature.
pub open spec fn ttl_fits(ttl: u8, initial: u8, ceiling: bool) -> bool {
    ttl <= initial && (ceiling || initial - ttl <= MAX_PLAUSIBLE_HOPS)
}

/// The check of the window size. What needs more than the segment shows, and
/// what says nothing, is not counted.
#[verifier::opaque]
pub open spec fn window_check(observed: TcpFeaturesView, window: WindowSpec) -> Seq<bool> {
    match window {
        WindowSpec::Any => Seq::empty(),
        WindowSpec::Fixed(n) => seq![observed.window == n],
        WindowSpec::MssMultiple(n) => seq![
            observed.mss matches Some(mss) && mss * n == observed.window,
        ],
        WindowSpec::Modulo(n) => check_if(n > 0, observed.window as int % n as int == 0),
        WindowSpec::MtuMultiple(_) => Seq::empty(),
    }
}

#[verifier::opaque]
pub open spec fn payload_check(payload_empty: bool, class: PayloadClass) -> Seq<bool> {
    match class {
        PayloadClass::Zero => seq![payload_empty],
        PayloadClass::NonZero => seq![!payload_empty],
        PayloadClass::Any => Seq::empty(),
    }
}

/// The checks that a signature calls for, and which of them a SYN passes: the IP
/// version and the MSS where the signature names them; the TTL; the window; the
/// window scale where the signature's layout has that option; the whole option
/// layout with its padding, an empty one too; the `df` quirk where it is asked
/// for; and the payload class.
#[verifier::opaque]
pub open spec fn tcp_checks(
    observed: TcpFeaturesView,
    payload_empty: bool,
    ip_version: u8,
    sig: TcpSignatureView,
) -> Seq<bool> {
    check_if(sig.ip_version is Some, sig.ip_version == Some(ip_version)) + check_if(
        true,
        ttl_fits(observed.ttl, sig.initial_ttl, sig.ittl_is_ceiling),
    ) + check_if(sig.mss is Some, observed.mss == sig.mss) + window_check(observed, sig.window)
        + check_if(
        sig.option_layout.contains(TcpOptionKind::WindowScale) && sig.window_scale is Some,
        observed.window_scale == sig.window_scale,
    ) + check_if(
        true,
        observed.option_order == sig.option_layout && observed.eol_padding == sig.eol_padding,
    ) + check_if(sig.quirks.contains("df"@), observed.df) + payload_check(
        payload_empty,
        sig.payload_class,
    )
}

/// How well a SYN fits a signature.
pub open spec fn tcp_score(
    observed: TcpFeaturesView,
    payload_empty: bool,
    ip_version: u8,
    sig: TcpSignatureView,
) -> Score {
    Score::of(tcp_checks(observed, payload_empty, ip_version, sig))
}

/// At least the TTL and the option layout are checked, and never more than eight
/// things.
pub proof fn lemma_tcp_score_valid(
    observed: TcpFeaturesView,
    payload_empty: bool,
    ip_version: u8,
    sig: TcpSignatureView,
)
    ensures
        2 <= tcp_checks(observed, payload_empty, ip_version, sig).len() <= 8,
        tcp_score(observed, payload_empty, ip_version, sig).valid(),
{
    let checks = tcp_checks(observed, payload_empty, ip_version, sig);
    assert(2 <= checks.len() <= 8) by {
        reveal(tcp_checks);
        lemma_check_if();
        lemma_one_check(observed, payload_empty, sig);
    }
    lemma_passed(checks);
}

/// What is checked counts once.
pub proof fn lemma_check_if()
    ensures
        forall|made: bool, ok: bool| (#[trigger] check_if(made, ok)).len() == (if made {
            1int
        } else {
            0
        }),
{
    reveal(check_if);
}

proof fn lemma_one_check(observed: TcpFeaturesView, payload_empty: bool, sig: TcpSignatureView)
    ensures
        window_check(observed, sig.window).len() <= 1,
        payload_check(payload_empty, sig.payload_class).len() <= 1,
{
    lemma_check_if();
    reveal(window_check);
    reveal(payload_check);
}

fn has_option(layout: &Vec<TcpOptionKind>, option: TcpOptionKind) -> (r: bool)
    ensures
        r == layout@.contains(option),
{
    let mut i: usize = 0;
    while i < layout.len()
        invariant
            i <= layout@.len(),
            forall|j: int| 0 <= j < i ==> layout@[j] != option,
        decreases layout@.len() - i,
    {
        if layout[i] == option {
            return true;
        }
        i = i + 1;
    }
    false
}

fn same_layout(a: &Vec<TcpOptionKind>, b: &Vec<TcpOptionKind>) -> (r: bool)
    ensures
        r == (a@ == b@),
{
    if a.len() != b.len() {
        return false;
    }
    let mut i: usize = 0;
    while i < a.len()
        invariant
            i <= a@.len() == b@.len(),
            forall|j: int| 0 <= j < i ==> a@[j] == b@[j],
        decreases a@.len() - i,
    {
        if a[i] != b[i] {
            return false;
        }
        i = i + 1;
    }
    assert(a@ =~= b@);
    true
}

/// Whether one of the strings is `wanted`.
pub fn has_string(list: &Vec<String>, wanted: &str) -> (r: bool)
    ensures
        r == strings(list@).contains(wanted@),
{
    let mut i: usize = 0;
    while i < list.len()
        invariant
            i <= list@.len(),
            forall|j: int| 0 <= j < i ==> strings(list@)[j] != wanted@,
        decreases list@.len() - i,
    {
        if text::same_str(list[i].as_str(), wanted) {
            assert(strings(list@)[i as int] == wanted@);
            return true;
        }
        i = i + 1;
    }
    false
}

fn mss_multiple_fits(window: u16, mss: Option<u16>, n: u32) -> (r: bool)
    ensures
        r == (mss matches Some(mss) && mss * n == window),
{
    match mss {
        Some(mss) => {
            assert(0 <= mss * n <= 0xffff * 0xffff_ffff) by (nonlinear_arith)
                requires
                    0 <= mss <= 0xffff,
                    0 <= n <= 0xffff_ffff,
            ;
            mss as u64 * n as u64 == window as u64
        },
        None => false,
    }
}

pub fn push_check(checks: &mut Vec<bool>, made: bool, ok: bool)
    ensures
        final(checks)@ == old(checks)@ + check_if(made, ok),
        final(checks)@.len() == old(checks)@.len() + (if made {
            1int
        } else {
            0
        }),
{
    reveal(check_if);
    if made {
        checks.push(ok);
    }
    assert(checks@ =~= old(checks)@ + check_if(made, ok));
}

fn push_window_check(checks: &mut Vec<bool>, observed: &TcpFeatures, window: WindowSpec)
    ensures
        final(checks)@ == old(checks)@ + window_check(observed@, window),
        old(checks)@.len() <= final(checks)@.len() <= old(checks)@.len() + 1,
{
    reveal(check_if);
    reveal(window_check);
    match window {
        WindowSpec::Any => {},
        WindowSpec::Fixed(n) => checks.push(observed.window == n),
        WindowSpec::MssMultiple(n) => checks.push(
            mss_multiple_fits(observed.window, observed.mss, n),
        ),
        WindowSpec::Modulo(n) => if n > 0 {
            checks.push(observed.window as u32 % n == 0);
        },
        // The MTU check is not made: it counts neither for nor against a match.
        WindowSpec::MtuMultiple(_) => {},
    }
    assert(checks@ =~= old(checks)@ + window_check(observed@, window));
}

fn push_payload_check(checks: &mut Vec<bool>, payload_empty: bool, class: PayloadClass)
    ensures
        final(checks)@ == old(checks)@ + payload_check(payload_empty, class),
        old(checks)@.len() <= final(checks)@.len() <= old(checks)@.len() + 1,
{
    reveal(payload_check);
    match class {
        PayloadClass::Zero => checks.push(payload_empty),
        PayloadClass::NonZero => checks.push(!payload_empty),
        PayloadClass::Any => {},
    }
    assert(checks@ =~= old(checks)@ + payload_check(payload_empty, class));
}

/// Scores a SYN against a signature.
pub fn score_tcp(
    observed: &TcpFeatures,
    payload_empty: bool,
    ip_version: u8,
    sig: &TcpSignature,
) -> (r: Score)
    ensures
        r == tcp_score(observed@, payload_empty, ip_version, sig@),
        r.valid(),
{
    let mut checks: Vec<bool> = Vec::new();
    push_check(&mut checks, sig.ip_version.is_some(), sig.ip_version == Some(ip_version));
    assert(checks@ =~= check_if(sig@.ip_version is Some, sig@.ip_version == Some(ip_version)));

    let ttl_ok = observed.ttl <= sig.initial_ttl && (sig.ittl_is_ceiling || sig.initial_ttl
        - observed.ttl <= MAX_PLAUSIBLE_HOPS);
    push_check(&mut checks, true, ttl_ok);
    push_check(&mut checks, sig.mss.is_some(), observed.mss == sig.mss);
    push_window_check(&mut checks, observed, sig.window);
    // A scale without the option in the layout is a placeholder.
    let scaled = has_option(&sig.option_layout, TcpOptionKind::WindowScale);
    push_check(
        &mut checks,
        scaled && sig.window_scale.is_some(),
        observed.window_scale == sig.window_scale,
    );
    // An empty layout is a layout too, and the padding is part of it.
    let layout_ok = same_layout(&observed.option_order, &sig.option_layout)
        && observed.eol_padding == sig.eol_padding;
    push_check(&mut checks, true, layout_ok);
    push_check(&mut checks, has_string(&sig.quirks, "df"), observed.df);
    push_payload_check(&mut checks, payload_empty, sig.payload_class);
    reveal(tcp_checks);
    Score::tally(&checks)
}

// ---------------------------------------------------------------------------
// The best signature

/// The scores of the signatures that reach `min` and are of the wanted kind.
pub open spec fn tcp_candidates(
    signatures: Seq<TcpSignatureView>,
    observed: TcpFeaturesView,
    payload_empty: bool,
    ip_version: u8,
    min: int,
    specific: bool,
) -> Seq<Option<Score>> {
    Seq::new(
        signatures.len(),
        |i: int|
            {
                let score = tcp_score(observed, payload_empty, ip_version, signatures[i]);
                if signatures[i].specific == specific && score.reaches(min) {
                    Some(score)
                } else {
                    None
                }
            },
    )
}

/// The signature that fits best of those that reach `min`, the first of equals.
/// A generic one counts only where no specific one does.
pub open spec fn best_tcp(
    signatures: Seq<TcpSignatureView>,
    observed: TcpFeaturesView,
    payload_empty: bool,
    ip_version: u8,
    min: int,
) -> Option<int> {
    let specific = first_best(
        tcp_candidates(signatures, observed, payload_empty, ip_version, min, true),
    );
    if specific is Some {
        specific
    } else {
        first_best(tcp_candidates(signatures, observed, payload_empty, ip_version, min, false))
    }
}

fn tcp_candidate_scores(
    signatures: &Vec<TcpSignature>,
    observed: &TcpFeatures,
    payload_empty: bool,
    ip_version: u8,
    min_score: MinScore,
    specific: bool,
) -> (r: Vec<Option<Score>>)
    ensures
        r@ == tcp_candidates(
            tcp_views(signatures@),
            observed@,
            payload_empty,
            ip_version,
            min_score as int,
            specific,
        ),
        all_valid(r@),
{
    let mut out: Vec<Option<Score>> = Vec::new();
    let ghost wanted = tcp_candidates(
        tcp_views(signatures@),
        observed@,
        payload_empty,
        ip_version,
        min_score as int,
        specific,
    );
    let mut i: usize = 0;
    while i < signatures.len()
        invariant
            i <= signatures@.len(),
            wanted == tcp_candidates(
                tcp_views(signatures@),
                observed@,
                payload_empty,
                ip_version,
                min_score as int,
                specific,
            ),
            out@ == wanted.take(i as int),
            all_valid(out@),
        decreases signatures@.len() - i,
    {
        let sig = &signatures[i];
        let score = score_tcp(observed, payload_empty, ip_version, sig);
        if sig.specific == specific && score.is_at_least(min_score) {
            out.push(Some(score));
        } else {
            out.push(None);
        }
        assert(out@ =~= wanted.take(i + 1));
        i = i + 1;
    }
    assert(wanted.take(i as int) =~= wanted);
    out
}

/// Finds the signature that fits best.
pub fn best_tcp_match<'a>(
    signatures: &'a Vec<TcpSignature>,
    observed: &TcpFeatures,
    payload_empty: bool,
    ip_version: u8,
    min_score: MinScore,
) -> (r: Option<(&'a TcpSignature, Score)>)
    ensures
        match (
            r,
            best_tcp(
                tcp_views(signatures@),
                observed@,
                payload_empty,
                ip_version,
                min_score as int,
            ),
        ) {
            (Some((sig, score)), Some(i)) => {
                &&& 0 <= i < signatures@.len()
                &&& *sig == signatures@[i]
                &&& score == tcp_score(observed@, payload_empty, ip_version, sig@)
                &&& score.reaches(min_score as int)
                &&& score.valid()
            },
            (None, None) => true,
            _ => false,
        },
{
    let specific = tcp_candidate_scores(
        signatures,
        observed,
        payload_empty,
        ip_version,
        min_score,
        true,
    );
    if let Some(i) = pick_first_best(&specific) {
        if let Some(score) = specific[i] {
            return Some((&signatures[i], score));
        }
    }
    let generic = tcp_candidate_scores(
        signatures,
        observed,
        payload_empty,
        ip_version,
        min_score,
        false,
    );
    if let Some(i) = pick_first_best(&generic) {
        if let Some(score) = generic[i] {
            return Some((&signatures[i], score));
        }
    }
    None
}

/// The scores of all signatures.
pub open spec fn tcp_scores(
    signatures: Seq<TcpSignatureView>,
    observed: TcpFeaturesView,
    payload_empty: bool,
    ip_version: u8,
) -> Seq<Option<Score>> {
    Seq::new(
        signatures.len(),
        |i: int| Some(tcp_score(observed, payload_empty, ip_version, signatures[i])),
    )
}

/// Finds the signature that comes closest, whether or not it would count as a
/// match: the last of those with the highest score.
pub fn nearest_tcp_signature<'a>(
    signatures: &'a Vec<TcpSignature>,
    observed: &TcpFeatures,
    payload_empty: bool,
    ip_version: u8,
) -> (r: Option<(&'a TcpSignature, Score)>)
    ensures
        match (
            r,
            last_best(tcp_scores(tcp_views(signatures@), observed@, payload_empty, ip_version)),
        ) {
            (Some((sig, score)), Some(i)) => {
                &&& 0 <= i < signatures@.len()
                &&& *sig == signatures@[i]
                &&& score == tcp_score(observed@, payload_empty, ip_version, sig@)
            },
            (None, None) => signatures@.len() == 0,
            _ => false,
        },
{
    let mut scores: Vec<Option<Score>> = Vec::new();
    let ghost wanted = tcp_scores(tcp_views(signatures@), observed@, payload_empty, ip_version);
    let mut i: usize = 0;
    while i < signatures.len()
        invariant
            i <= signatures@.len(),
            wanted == tcp_scores(tcp_views(signatures@), observed@, payload_empty, ip_version),
            scores@ == wanted.take(i as int),
            all_valid(scores@),
        decreases signatures@.len() - i,
    {
        scores.push(Some(score_tcp(observed, payload_empty, ip_version, &signatures[i])));
        assert(scores@ =~= wanted.take(i + 1));
        i = i + 1;
    }
    assert(wanted.take(i as int) =~= wanted);
    proof {
        if signatures@.len() > 0 {
            assert(scores@[0] is Some);
        }
    }
    match pick_last_best(&scores) {
        Some(i) => match scores[i] {
            Some(score) => Some((&signatures[i], score)),
            None => None,
        },
        None => None,
    }
}

/// A generic signature is chosen only if no specific one matches, however well
/// it fits.
pub proof fn specific_signatures_come_first(
    signatures: Seq<TcpSignatureView>,
    observed: TcpFeaturesView,
    payload_empty: bool,
    ip_version: u8,
    min: int,
    k: int,
)
    requires
        0 <= k < signatures.len(),
        signatures[k].specific,
        tcp_score(observed, payload_empty, ip_version, signatures[k]).reaches(min),
    ensures
        best_tcp(signatures, observed, payload_empty, ip_version, min) matches Some(i) && 0 <= i
            < signatures.len() && signatures[i].specific,
{
    let candidates = tcp_candidates(signatures, observed, payload_empty, ip_version, min, true);
    assert forall|i: int| 0 <= i < candidates.len() implies (#[trigger] candidates[i] matches Some(
        s,
    ) ==> s.valid()) by {
        lemma_tcp_score_valid(observed, payload_empty, ip_version, signatures[i]);
    }
    assert(candidates[k] is Some);
    best_exists(candidates, k);
}

/// Whatever is chosen reaches the minimum, and no other signature of its kind
/// fits better.
pub proof fn chosen_signature_fits_best(
    signatures: Seq<TcpSignatureView>,
    observed: TcpFeaturesView,
    payload_empty: bool,
    ip_version: u8,
    min: int,
    j: int,
)
    requires
        0 <= j < signatures.len(),
    ensures
        best_tcp(signatures, observed, payload_empty, ip_version, min) matches Some(i) ==> {
            &&& 0 <= i < signatures.len()
            &&& tcp_score(observed, payload_empty, ip_version, signatures[i]).reaches(min)
            &&& signatures[j].specific == signatures[i].specific && tcp_score(
                observed,
                payload_empty,
                ip_version,
                signatures[j],
            ).reaches(min) ==> !tcp_score(observed, payload_empty, ip_version, signatures[j]).beats(
                tcp_score(observed, payload_empty, ip_version, signatures[i]),
            )
        },
{
    let specific = tcp_candidates(signatures, observed, payload_empty, ip_version, min, true);
    let generic = tcp_candidates(signatures, observed, payload_empty, ip_version, min, false);
    assert(specific[j] is Some ==> signatures[j].specific);
    assert(generic[j] is Some ==> !signatures[j].specific);
}

// ---------------------------------------------------------------------------
// The notation

/// How an option layout writes one option.
pub open spec fn option_token(option: TcpOptionKind, eol_padding: Option<u8>) -> Seq<char> {
    match option {
        TcpOptionKind::Eol => "eol+"@ + decimal(
            match eol_padding {
                Some(n) => n as nat,
                None => 0,
            },
        ),
        TcpOptionKind::Nop => "nop"@,
        TcpOptionKind::Mss => "mss"@,
        TcpOptionKind::WindowScale => "ws"@,
        TcpOptionKind::SackPermitted => "sok"@,
        TcpOptionKind::Sack => "sack"@,
        TcpOptionKind::Timestamp => "ts"@,
        TcpOptionKind::Other(kind) => "?"@ + decimal(kind as nat),
    }
}

pub open spec fn option_tokens(options: Seq<TcpOptionKind>, eol_padding: Option<u8>) -> Seq<
    Seq<char>,
> {
    options.map_values(|option: TcpOptionKind| option_token(option, eol_padding))
}

/// An option layout: its options with commas between them, the EOL option with
/// its padding behind it.
pub open spec fn layout_text(options: Seq<TcpOptionKind>, eol_padding: Option<u8>) -> Seq<char> {
    join(option_tokens(options, eol_padding), seq![','])
}

fn option_token_of(option: TcpOptionKind, eol_padding: Option<u8>) -> (r: String)
    ensures
        r@ == option_token(option, eol_padding),
{
    match option {
        TcpOptionKind::Eol => {
            let mut token = text::copy_of("eol+");
            let padding: u64 = match eol_padding {
                Some(n) => n as u64,
                None => 0,
            };
            text::push_decimal(&mut token, padding);
            token
        },
        TcpOptionKind::Nop => text::copy_of("nop"),
        TcpOptionKind::Mss => text::copy_of("mss"),
        TcpOptionKind::WindowScale => text::copy_of("ws"),
        TcpOptionKind::SackPermitted => text::copy_of("sok"),
        TcpOptionKind::Sack => text::copy_of("sack"),
        TcpOptionKind::Timestamp => text::copy_of("ts"),
        TcpOptionKind::Other(kind) => {
            let mut token = text::copy_of("?");
            text::push_decimal(&mut token, kind as u64);
            token
        },
    }
}

/// Writes an option layout.
pub fn option_layout_text(options: &Vec<TcpOptionKind>, eol_padding: Option<u8>) -> (r: String)
    ensures
        r@ == layout_text(options@, eol_padding),
{
    let mut tokens: Vec<String> = Vec::new();
    let ghost wanted = option_tokens(options@, eol_padding);
    let mut i: usize = 0;
    assert(strings(tokens@) =~= wanted.take(0));
    while i < options.len()
        invariant
            i <= options@.len(),
            wanted == option_tokens(options@, eol_padding),
            strings(tokens@) == wanted.take(i as int),
        decreases options@.len() - i,
    {
        let ghost before = strings(tokens@);
        let token = option_token_of(options[i], eol_padding);
        tokens.push(token);
        assert(strings(tokens@) =~= before.push(token@));
        assert(strings(tokens@) =~= wanted.take(i + 1));
        i = i + 1;
    }
    assert(wanted.take(i as int) =~= wanted);
    text::joined(&tokens, ',')
}

/// How the window is written: as a multiple of the MSS where it is one.
pub open spec fn window_text(window: u16, mss: Option<u16>) -> Seq<char> {
    match mss {
        Some(mss) => if mss > 0 && window % mss == 0 {
            "mss*"@ + decimal((window / mss) as nat)
        } else {
            decimal(window as nat)
        },
        None => decimal(window as nat),
    }
}

/// A SYN in the notation of the database:
/// `ver:ittl+distance:?:mss:wsize,scale:olayout:quirks:pclass`. The length of the
/// IP options is not observed, so a `?` stands for it, and `df` is the only quirk.
pub open spec fn signature_text(
    observed: TcpFeaturesView,
    payload_empty: bool,
    ip_version: u8,
) -> Seq<char> {
    let initial = likely_initial_ttl(observed.ttl);
    let mss = match observed.mss {
        Some(mss) => decimal(mss as nat),
        None => "*"@,
    };
    let scale: nat = match observed.window_scale {
        Some(scale) => scale as nat,
        None => 0,
    };
    decimal(ip_version as nat) + ":"@ + decimal(initial as nat) + "+"@ + decimal(
        (initial - observed.ttl) as nat,
    ) + ":?:"@ + mss + ":"@ + window_text(observed.window, observed.mss) + ","@ + decimal(scale)
        + ":"@ + layout_text(observed.option_order, observed.eol_padding) + ":"@ + (
    if observed.df {
        "df"@
    } else {
        ""@
    }) + ":"@ + (if payload_empty {
        "0"@
    } else {
        "+"@
    })
}

fn push_window(s: &mut String, window: u16, mss: Option<u16>)
    ensures
        final(s)@ == old(s)@ + window_text(window, mss),
{
    if let Some(mss) = mss {
        if mss > 0 && window % mss == 0 {
            s.append("mss*");
            text::push_decimal(s, (window / mss) as u64);
            assert(s@ =~= old(s)@ + window_text(window, Some(mss)));
            return ;
        }
    }
    text::push_decimal(s, window as u64);
}

/// Writes an observed SYN in the notation of the database.
pub fn raw_signature(observed: &TcpFeatures, payload_empty: bool, ip_version: u8) -> (r: String)
    ensures
        r@ == signature_text(observed@, payload_empty, ip_version),
{
    let initial: u8 = nearest_initial_ttl(observed.ttl);
    let mut out = text::decimal_string(ip_version as u64);
    out.append(":");
    text::push_decimal(&mut out, initial as u64);
    out.append("+");
    text::push_decimal(&mut out, (initial - observed.ttl) as u64);
    out.append(":?:");
    let mss = match observed.mss {
        Some(mss) => text::decimal_string(mss as u64),
        None => text::copy_of("*"),
    };
    out.append(mss.as_str());
    out.append(":");
    push_window(&mut out, observed.window, observed.mss);
    out.append(",");
    let scale: u64 = match observed.window_scale {
        Some(scale) => scale as u64,
        None => 0,
    };
    text::push_decimal(&mut out, scale);
    out.append(":");
    let layout = option_layout_text(&observed.option_order, observed.eol_padding);
    out.append(layout.as_str());
    out.append(":");
    let quirks = if observed.df {
        "df"
    } else {
        ""
    };
    out.append(quirks);
    out.append(":");
    let class = if payload_empty {
        "0"
    } else {
        "+"
    };
    out.append(class);
    out
}

proof fn lemma_token_reads_back(option: TcpOptionKind, eol_padding: Option<u8>)
    ensures
        read_option(option_token(option, eol_padding)) == Some(option),
        option_token(option, eol_padding).len() > 0,
        !option_token(option, eol_padding).contains(','),
        match text::after_prefix(option_token(option, eol_padding), "eol"@) {
            Some(rest) => option == TcpOptionKind::Eol && read_padding_count(rest) == Some(
                match eol_padding {
                    Some(n) => n,
                    None => 0u8,
                },
            ),
            None => option != TcpOptionKind::Eol,
        },
{
    reveal_strlit("eol+");
    reveal_strlit("eol");
    reveal_strlit("nop");
    reveal_strlit("mss");
    reveal_strlit("ws");
    reveal_strlit("sok");
    reveal_strlit("sack");
    reveal_strlit("ts");
    reveal_strlit("?");
    let token = option_token(option, eol_padding);
    match option {
        TcpOptionKind::Eol => {
            let n: u8 = match eol_padding {
                Some(n) => n,
                None => 0,
            };
            text::decimal_reads_back(n as nat);
            text::unsigned_reads_decimal(n as nat, u8::MAX as nat);
            assert(token[0] == 'e' && token[3] == '+');
            assert(token.take(3) =~= "eol"@);
            assert(token.skip(3).skip(1) =~= decimal(n as nat));
            assert forall|i: int| 0 <= i < token.len() implies token[i] != ',' by {
                if i >= 4 {
                    assert(token[i] == decimal(n as nat)[i - 4]);
                }
            }
        },
        TcpOptionKind::Other(kind) => {
            text::decimal_reads_back(kind as nat);
            text::unsigned_reads_decimal(kind as nat, u8::MAX as nat);
            assert(token.skip(1) =~= decimal(kind as nat));
            assert(token[0] == '?');
            assert(token.len() >= 3 ==> token.take(3)[0] == '?');
            assert forall|i: int| 0 <= i < token.len() implies token[i] != ',' by {
                if i >= 1 {
                    assert(token[i] == decimal(kind as nat)[i - 1]);
                }
            }
        },
        TcpOptionKind::Nop => {
            assert(token.take(3)[0] == 'n');
        },
        TcpOptionKind::Mss => {
            assert(token.take(3)[0] == 'm');
        },
        TcpOptionKind::WindowScale => {
            assert(token[0] == 'w');
        },
        TcpOptionKind::SackPermitted => {
            assert(token.take(3)[0] == 's' && token[1] == 'o');
        },
        TcpOptionKind::Sack => {
            assert(token.take(3)[0] == 's');
        },
        TcpOptionKind::Timestamp => {
            assert(token[0] == 't');
        },
    }
}

/// A written option layout reads back as the same layout, padding and all.
pub proof fn layout_text_reads_back(options: Seq<TcpOptionKind>, eol_padding: Option<u8>)
    ensures
        read_layout(split(layout_text(options, eol_padding), ',')) == Some(options),
        read_padding(split(layout_text(options, eol_padding), ',')) == (if options.contains(
            TcpOptionKind::Eol,
        ) {
            Some(
                match eol_padding {
                    Some(n) => n,
                    None => 0u8,
                },
            )
        } else {
            None::<u8>
        }),
{
    let tokens = option_tokens(options, eol_padding);
    assert forall|i: int| 0 <= i < tokens.len() implies {
        &&& !(#[trigger] tokens[i]).contains(',')
        &&& tokens[i].len() > 0
        &&& read_option(tokens[i]) == Some(options[i])
    } by {
        lemma_token_reads_back(options[i], eol_padding);
    }
    let pieces = split(layout_text(options, eol_padding), ',');
    if options.len() == 0 {
        let none = Seq::<char>::empty();
        assert(layout_text(options, eol_padding) =~= none);
        text::lemma_position(none, ',');
        assert(pieces =~= seq![none]);
        assert(non_empty(pieces) =~= Seq::empty()) by {
            reveal(Seq::filter);
            assert(pieces.drop_last() =~= Seq::empty());
            assert(non_empty(pieces.drop_last()) =~= Seq::empty());
        }
        assert(options_of(non_empty(pieces)) =~= options);
        reveal_strlit("eol");
        reveal_with_fuel(read_padding, 2);
        assert(read_padding(pieces) is None);
    } else {
        text::split_undoes_join(tokens, ',');
        assert(pieces == tokens);
        lemma_all_kept(tokens);
        assert(options_of(non_empty(pieces)) =~= options);
        lemma_padding_reads_back(options, eol_padding);
    }
}

proof fn lemma_all_kept(pieces: Seq<Seq<char>>)
    requires
        forall|i: int| 0 <= i < pieces.len() ==> (#[trigger] pieces[i]).len() > 0,
    ensures
        non_empty(pieces) == pieces,
    decreases pieces.len(),
{
    reveal(Seq::filter);
    if pieces.len() > 0 {
        let head = pieces.drop_last();
        assert forall|i: int| 0 <= i < head.len() implies (#[trigger] head[i]).len() > 0 by {
            assert(head[i] == pieces[i]);
        }
        lemma_all_kept(head);
        assert(pieces.last().len() > 0);
        assert(head.push(pieces.last()) =~= pieces);
    } else {
        assert(non_empty(pieces) =~= pieces);
    }
}

proof fn lemma_padding_reads_back(options: Seq<TcpOptionKind>, eol_padding: Option<u8>)
    ensures
        read_padding(option_tokens(options, eol_padding)) == (if options.contains(
            TcpOptionKind::Eol,
        ) {
            Some(
                match eol_padding {
                    Some(n) => n,
                    None => 0u8,
                },
            )
        } else {
            None::<u8>
        }),
    decreases options.len(),
{
    if options.len() > 0 {
        let rest = options.skip(1);
        lemma_padding_reads_back(rest, eol_padding);
        lemma_token_reads_back(options[0], eol_padding);
        let tokens = option_tokens(options, eol_padding);
        assert(tokens.skip(1) =~= option_tokens(rest, eol_padding));
        assert(tokens[0] == option_token(options[0], eol_padding));
        if options[0] != TcpOptionKind::Eol {
            if options.contains(TcpOptionKind::Eol) {
                let i = choose|i: int| 0 <= i < options.len() && options[i] == TcpOptionKind::Eol;
                assert(rest[i - 1] == TcpOptionKind::Eol);
            }
            if rest.contains(TcpOptionKind::Eol) {
                let i = choose|i: int| 0 <= i < rest.len() && rest[i] == TcpOptionKind::Eol;
                assert(options[i + 1] == TcpOptionKind::Eol);
            }
        }
    }
}

// ---------------------------------------------------------------------------
// What a score says

proof fn lemma_passed_if(made: bool, ok: bool)
    ensures
        check_if(made, ok).len() == (if made {
            1int
        } else {
            0
        }),
        passed(check_if(made, ok)) == (if made && ok {
            1int
        } else {
            0
        }),
{
    reveal(check_if);
    reveal(Seq::filter);
    assert(seq![ok].drop_last() =~= Seq::empty());
    assert(passed(Seq::<bool>::empty()) == 0);
}

proof fn lemma_window_passed(observed: TcpFeaturesView, window: WindowSpec)
    ensures
        window_check(observed, window).len() == (match window {
            WindowSpec::Fixed(_) => 1int,
            WindowSpec::MssMultiple(_) => 1,
            WindowSpec::Modulo(n) => if n > 0 {
                1
            } else {
                0
            },
            _ => 0,
        }),
        window_check(observed, window).len() - passed(window_check(observed, window)) == (
        match window {
            WindowSpec::Fixed(n) => if observed.window != n {
                1int
            } else {
                0
            },
            WindowSpec::MssMultiple(n) => if observed.mss matches Some(mss) && mss * n
                == observed.window {
                0
            } else {
                1
            },
            WindowSpec::Modulo(n) => if n > 0 && observed.window as int % n as int != 0 {
                1
            } else {
                0
            },
            _ => 0,
        }),
{
    reveal(window_check);
    let ok = match window {
        WindowSpec::Fixed(n) => observed.window == n,
        WindowSpec::MssMultiple(n) => observed.mss matches Some(mss) && mss * n == observed.window,
        WindowSpec::Modulo(n) => observed.window as int % n as int == 0,
        _ => true,
    };
    lemma_check_if();
    lemma_passed_if(true, ok);
    lemma_passed_if(false, ok);
    assert(check_if(true, ok) =~= seq![ok]) by {
        reveal(check_if);
    }
    assert(check_if(false, ok) =~= Seq::<bool>::empty()) by {
        reveal(check_if);
    }
}

proof fn lemma_payload_passed(payload_empty: bool, class: PayloadClass)
    ensures
        payload_check(payload_empty, class).len() == (if class == PayloadClass::Any {
            0int
        } else {
            1
        }),
        payload_check(payload_empty, class).len() - passed(payload_check(payload_empty, class))
            == (if (class == PayloadClass::Zero && !payload_empty) || (class
            == PayloadClass::NonZero && payload_empty) {
            1int
        } else {
            0
        }),
{
    reveal(payload_check);
    lemma_passed_if(true, payload_empty);
    lemma_passed_if(true, !payload_empty);
    lemma_passed_if(false, true);
    assert(forall|ok: bool| #[trigger] check_if(true, ok) =~= seq![ok]) by {
        reveal(check_if);
    }
    assert(check_if(false, true) =~= Seq::<bool>::empty()) by {
        reveal(check_if);
    }
}

/// One for what is so, nothing for what is not.
#[verifier::opaque]
pub open spec fn one_if(so: bool) -> int {
    if so {
        1
    } else {
        0
    }
}

/// In what a SYN is not as a signature asks.
pub ghost struct Differences {
    pub version: bool,
    pub ttl: bool,
    pub mss: bool,
    pub window: bool,
    pub scale: bool,
    pub layout: bool,
    pub df: bool,
    pub payload: bool,
}

/// The IP version and the MSS differ where the signature names another; the TTL where it
/// is above the initial one, or more than 40 hops below one that is no ceiling; the
/// window where it is not that number, not that many segments or not a multiple; the
/// scale where the layout has that option and the signature names another; the options
/// where kinds, order or padding differ; and `df` and the payload where they are asked
/// for.
#[verifier::opaque]
pub open spec fn differences(
    observed: TcpFeaturesView,
    payload_empty: bool,
    ip_version: u8,
    sig: TcpSignatureView,
) -> Differences {
    Differences {
        version: sig.ip_version matches Some(version) && version != ip_version,
        ttl: observed.ttl > sig.initial_ttl || (!sig.ittl_is_ceiling && observed.ttl + 40
            < sig.initial_ttl),
        mss: sig.mss matches Some(mss) && observed.mss != Some(mss),
        window: match sig.window {
            WindowSpec::Fixed(n) => observed.window != n,
            WindowSpec::MssMultiple(n) => !(observed.mss matches Some(mss) && mss * n
                == observed.window),
            WindowSpec::Modulo(n) => n > 0 && observed.window as int % n as int != 0,
            _ => false,
        },
        scale: sig.window_scale matches Some(scale) && sig.option_layout.contains(
            TcpOptionKind::WindowScale,
        ) && observed.window_scale != Some(scale),
        layout: observed.option_order != sig.option_layout || observed.eol_padding
            != sig.eol_padding,
        df: sig.quirks.contains("df"@) && !observed.df,
        payload: match sig.payload_class {
            PayloadClass::Zero => !payload_empty,
            PayloadClass::NonZero => payload_empty,
            PayloadClass::Any => false,
        },
    }
}

/// What a check adds: to the checks where it is made, and to the failures where it fails.
proof fn lemma_adds(checks: Seq<bool>, more: Seq<bool>, asked: bool, failed: bool)
    requires
        more.len() == one_if(asked),
        more.len() - passed(more) == one_if(failed),
    ensures
        (checks + more).len() == checks.len() + one_if(asked),
        (checks + more).len() - passed(checks + more) == checks.len() - passed(checks) + one_if(
            failed,
        ),
{
    lemma_passed_parts(checks, more);
}

/// What a signature asks for.
pub ghost struct Asked {
    pub version: bool,
    pub mss: bool,
    pub window: bool,
    pub scale: bool,
    pub df: bool,
    pub payload: bool,
}

/// The window is asked for where it is a number, a number of segments or a multiple of
/// a number but zero; the scale where the layout has that option; of the quirks `df`.
#[verifier::opaque]
pub open spec fn asked_by(sig: TcpSignatureView) -> Asked {
    Asked {
        version: sig.ip_version is Some,
        mss: sig.mss is Some,
        window: match sig.window {
            WindowSpec::Fixed(_) => true,
            WindowSpec::MssMultiple(_) => true,
            WindowSpec::Modulo(n) => n > 0,
            _ => false,
        },
        scale: sig.window_scale is Some && sig.option_layout.contains(TcpOptionKind::WindowScale),
        df: sig.quirks.contains("df"@),
        payload: sig.payload_class != PayloadClass::Any,
    }
}

proof fn lemma_front(
    observed: TcpFeaturesView,
    payload_empty: bool,
    ip_version: u8,
    sig: TcpSignatureView,
)
    ensures
        ({
            let front = check_if(sig.ip_version is Some, sig.ip_version == Some(ip_version))
                + check_if(true, ttl_fits(observed.ttl, sig.initial_ttl, sig.ittl_is_ceiling))
                + check_if(sig.mss is Some, observed.mss == sig.mss) + window_check(
                observed,
                sig.window,
            );
            let d = differences(observed, payload_empty, ip_version, sig);
            let a = asked_by(sig);
            &&& front.len() == one_if(a.version) + 1 + one_if(a.mss) + one_if(a.window)
            &&& front.len() - passed(front) == one_if(d.version) + one_if(d.ttl) + one_if(d.mss)
                + one_if(d.window)
        }),
{
    let d = differences(observed, payload_empty, ip_version, sig);
    let a = asked_by(sig);
    let fits = ttl_fits(observed.ttl, sig.initial_ttl, sig.ittl_is_ceiling);
    let c1 = check_if(sig.ip_version is Some, sig.ip_version == Some(ip_version));
    let c2 = check_if(true, fits);
    let c3 = check_if(sig.mss is Some, observed.mss == sig.mss);
    let c4 = window_check(observed, sig.window);
    let none = Seq::<bool>::empty();
    assert(one_if(true) == 1) by {
        reveal(one_if);
    }
    assert(c1.len() == one_if(a.version) && c1.len() - passed(c1) == one_if(d.version)) by {
        reveal(one_if);
        reveal(differences);
        reveal(asked_by);
        lemma_passed_if(sig.ip_version is Some, sig.ip_version == Some(ip_version));
    }
    assert(c2.len() == one_if(true) && c2.len() - passed(c2) == one_if(d.ttl)) by {
        reveal(one_if);
        reveal(differences);
        lemma_passed_if(true, fits);
    }
    assert(c3.len() == one_if(a.mss) && c3.len() - passed(c3) == one_if(d.mss)) by {
        reveal(one_if);
        reveal(differences);
        reveal(asked_by);
        lemma_passed_if(sig.mss is Some, observed.mss == sig.mss);
    }
    assert(c4.len() == one_if(a.window) && c4.len() - passed(c4) == one_if(d.window)) by {
        reveal(one_if);
        reveal(differences);
        reveal(asked_by);
        lemma_window_passed(observed, sig.window);
    }
    lemma_adds(c1, c2, true, d.ttl);
    lemma_adds(c1 + c2, c3, a.mss, d.mss);
    lemma_adds(c1 + c2 + c3, c4, a.window, d.window);
}

proof fn lemma_back(
    observed: TcpFeaturesView,
    payload_empty: bool,
    ip_version: u8,
    sig: TcpSignatureView,
    front: Seq<bool>,
)
    ensures
        ({
            let all = front + check_if(
                sig.option_layout.contains(TcpOptionKind::WindowScale)
                    && sig.window_scale is Some,
                observed.window_scale == sig.window_scale,
            ) + check_if(
                true,
                observed.option_order == sig.option_layout && observed.eol_padding
                    == sig.eol_padding,
            ) + check_if(sig.quirks.contains("df"@), observed.df) + payload_check(
                payload_empty,
                sig.payload_class,
            );
            let d = differences(observed, payload_empty, ip_version, sig);
            let a = asked_by(sig);
            &&& all.len() == front.len() + one_if(a.scale) + 1 + one_if(a.df) + one_if(a.payload)
            &&& all.len() - passed(all) == front.len() - passed(front) + one_if(d.scale) + one_if(
                d.layout,
            ) + one_if(d.df) + one_if(d.payload)
        }),
{
    let d = differences(observed, payload_empty, ip_version, sig);
    let a = asked_by(sig);
    let scaled = sig.option_layout.contains(TcpOptionKind::WindowScale)
        && sig.window_scale is Some;
    let alike = observed.option_order == sig.option_layout && observed.eol_padding
        == sig.eol_padding;
    let c1 = check_if(scaled, observed.window_scale == sig.window_scale);
    let c2 = check_if(true, alike);
    let c3 = check_if(sig.quirks.contains("df"@), observed.df);
    let c4 = payload_check(payload_empty, sig.payload_class);
    assert(one_if(true) == 1) by {
        reveal(one_if);
    }
    assert(c1.len() == one_if(a.scale) && c1.len() - passed(c1) == one_if(d.scale)) by {
        reveal(one_if);
        reveal(differences);
        reveal(asked_by);
        lemma_passed_if(scaled, observed.window_scale == sig.window_scale);
    }
    assert(c2.len() == one_if(true) && c2.len() - passed(c2) == one_if(d.layout)) by {
        reveal(one_if);
        reveal(differences);
        lemma_passed_if(true, alike);
    }
    assert(c3.len() == one_if(a.df) && c3.len() - passed(c3) == one_if(d.df)) by {
        reveal(one_if);
        reveal(differences);
        reveal(asked_by);
        lemma_passed_if(sig.quirks.contains("df"@), observed.df);
    }
    assert(c4.len() == one_if(a.payload) && c4.len() - passed(c4) == one_if(d.payload)) by {
        reveal(one_if);
        reveal(differences);
        reveal(asked_by);
        lemma_payload_passed(payload_empty, sig.payload_class);
    }
    lemma_adds(front, c1, a.scale, d.scale);
    lemma_adds(front + c1, c2, true, d.layout);
    lemma_adds(front + c1 + c2, c3, a.df, d.df);
    lemma_adds(front + c1 + c2 + c3, c4, a.payload, d.payload);
}

/// A score counts one check for each thing that a signature asks for, besides the TTL
/// and the option layout, which are always checked; and it is one match less than its
/// checks for each thing in which the SYN is not as the signature asks.
pub proof fn scores_count_disagreements(
    observed: TcpFeaturesView,
    payload_empty: bool,
    ip_version: u8,
    sig: TcpSignatureView,
)
    ensures
        ({
            let score = tcp_score(observed, payload_empty, ip_version, sig);
            let d = differences(observed, payload_empty, ip_version, sig);
            let a = asked_by(sig);
            &&& score.checks == 2 + one_if(a.version) + one_if(a.mss) + one_if(a.window) + one_if(
                a.scale,
            ) + one_if(a.df) + one_if(a.payload)
            &&& score.checks - score.matches == one_if(d.version) + one_if(d.ttl) + one_if(d.mss)
                + one_if(d.window) + one_if(d.scale) + one_if(d.layout) + one_if(d.df) + one_if(
                d.payload,
            )
        }),
{
    let checks = tcp_checks(observed, payload_empty, ip_version, sig);
    lemma_tcp_score_valid(observed, payload_empty, ip_version, sig);
    lemma_passed(checks);
    let front = check_if(sig.ip_version is Some, sig.ip_version == Some(ip_version)) + check_if(
        true,
        ttl_fits(observed.ttl, sig.initial_ttl, sig.ittl_is_ceiling),
    ) + check_if(sig.mss is Some, observed.mss == sig.mss) + window_check(observed, sig.window);
    lemma_front(observed, payload_empty, ip_version, sig);
    lemma_back(observed, payload_empty, ip_version, sig, front);
    reveal(tcp_checks);
}

/// A SYN matches a signature in full exactly where it does everything that the
/// signature asks for.
pub proof fn full_matches_agree_in_everything(
    observed: TcpFeaturesView,
    payload_empty: bool,
    ip_version: u8,
    sig: TcpSignatureView,
)
    ensures
        ({
            let score = tcp_score(observed, payload_empty, ip_version, sig);
            score.matches == score.checks <==> {
                &&& sig.ip_version is None || sig.ip_version == Some(ip_version)
                &&& observed.ttl <= sig.initial_ttl
                &&& sig.ittl_is_ceiling || sig.initial_ttl <= observed.ttl + 40
                &&& sig.mss is None || sig.mss == observed.mss
                &&& sig.window matches WindowSpec::Fixed(n) ==> observed.window == n
                &&& sig.window matches WindowSpec::MssMultiple(n) ==> (observed.mss matches Some(
                    mss,
                ) && mss * n == observed.window)
                &&& sig.window matches WindowSpec::Modulo(n) ==> n == 0 || observed.window as int
                    % n as int == 0
                &&& sig.option_layout.contains(TcpOptionKind::WindowScale)
                    && sig.window_scale is Some ==> observed.window_scale == sig.window_scale
                &&& observed.option_order == sig.option_layout
                &&& observed.eol_padding == sig.eol_padding
                &&& sig.quirks.contains("df"@) ==> observed.df
                &&& sig.payload_class == PayloadClass::Zero ==> payload_empty
                &&& sig.payload_class == PayloadClass::NonZero ==> !payload_empty
            }
        }),
{
    scores_count_disagreements(observed, payload_empty, ip_version, sig);
    reveal(differences);
    reveal(one_if);
}

/// A signature that fixes the window is matched in full only by that window, and any
/// other window costs exactly one check.
pub proof fn a_fixed_window_is_that_window(
    observed: TcpFeaturesView,
    other: u16,
    payload_empty: bool,
    ip_version: u8,
    sig: TcpSignatureView,
)
    requires
        sig.window == WindowSpec::Fixed(observed.window),
        other != observed.window,
    ensures
        ({
            let right = tcp_score(observed, payload_empty, ip_version, sig);
            let wrong = tcp_score(
                TcpFeaturesView { window: other, ..observed },
                payload_empty,
                ip_version,
                sig,
            );
            &&& wrong.checks == right.checks
            &&& wrong.matches == right.matches - 1
            &&& wrong.matches < wrong.checks
            &&& right.beats(wrong)
        }),
{
    let changed = TcpFeaturesView { window: other, ..observed };
    scores_count_disagreements(observed, payload_empty, ip_version, sig);
    scores_count_disagreements(changed, payload_empty, ip_version, sig);
    reveal(differences);
    assert(one_if(true) == 1 && one_if(false) == 0) by {
        reveal(one_if);
    }
    lemma_tcp_score_valid(observed, payload_empty, ip_version, sig);
    lemma_tcp_score_valid(changed, payload_empty, ip_version, sig);
    crate::f0p::score::the_larger_share_is_better(
        tcp_score(observed, payload_empty, ip_version, sig),
        tcp_score(changed, payload_empty, ip_version, sig),
    );
}

/// A window in segments follows the MSS: a SYN of `n` segments fits `mss*n` whatever
/// its MSS is, and no other window does.
pub proof fn windows_in_segments_follow_the_mss(
    observed: TcpFeaturesView,
    mss: u16,
    n: u32,
    payload_empty: bool,
    ip_version: u8,
    sig: TcpSignatureView,
)
    requires
        sig.window == WindowSpec::MssMultiple(n),
        observed.mss == Some(mss),
        mss * n <= 0xffff,
    ensures
        ({
            let fitting = TcpFeaturesView { window: (mss * n) as u16, ..observed };
            let score = tcp_score(observed, payload_empty, ip_version, sig);
            let best = tcp_score(fitting, payload_empty, ip_version, sig);
            &&& score.checks == best.checks
            &&& observed.window == mss * n ==> score.matches == best.matches
            &&& observed.window != mss * n ==> score.matches == best.matches - 1
        }),
{
    let fitting = TcpFeaturesView { window: (mss * n) as u16, ..observed };
    assert(0 <= mss * n) by (nonlinear_arith)
        requires
            0 <= mss,
            0 <= n,
    ;
    scores_count_disagreements(observed, payload_empty, ip_version, sig);
    scores_count_disagreements(fitting, payload_empty, ip_version, sig);
    reveal(differences);
    assert(one_if(true) == 1 && one_if(false) == 0) by {
        reveal(one_if);
    }
    reveal(one_if);
}

/// The signature that is chosen reaches the minimum; no signature of its kind is a
/// larger share, and none before it as large a one. A generic one is chosen only where
/// no specific one reaches the minimum, and nothing only where none does at all.
pub proof fn the_best_signature_is_found(
    signatures: Seq<TcpSignatureView>,
    observed: TcpFeaturesView,
    payload_empty: bool,
    ip_version: u8,
    min: int,
    j: int,
)
    requires
        0 <= j < signatures.len(),
    ensures
        ({
            let other = tcp_score(observed, payload_empty, ip_version, signatures[j]);
            let counts = 1_000_000 * other.matches >= min * other.checks;
            match best_tcp(signatures, observed, payload_empty, ip_version, min) {
                Some(i) => {
                    let best = tcp_score(observed, payload_empty, ip_version, signatures[i]);
                    &&& 0 <= i < signatures.len()
                    &&& 1_000_000 * best.matches >= min * best.checks
                    &&& counts && signatures[j].specific ==> signatures[i].specific
                    &&& counts && signatures[j].specific == signatures[i].specific
                        ==> other.matches * best.checks <= best.matches * other.checks
                    &&& counts && signatures[j].specific == signatures[i].specific && j < i
                        ==> other.matches * best.checks < best.matches * other.checks
                },
                None => !counts,
            }
        }),
{
    let specific = tcp_candidates(signatures, observed, payload_empty, ip_version, min, true);
    let generic = tcp_candidates(signatures, observed, payload_empty, ip_version, min, false);
    assert forall|i: int| 0 <= i < specific.len() implies (#[trigger] specific[i] matches Some(s)
        ==> s.valid()) by {
        lemma_tcp_score_valid(observed, payload_empty, ip_version, signatures[i]);
    }
    assert forall|i: int| 0 <= i < generic.len() implies (#[trigger] generic[i] matches Some(s)
        ==> s.valid()) by {
        lemma_tcp_score_valid(observed, payload_empty, ip_version, signatures[i]);
    }
    if specific[j] is Some {
        best_exists(specific, j);
    }
    if generic[j] is Some {
        best_exists(generic, j);
    }
}

/// The signature that comes closest is one that none beats, and that beats all behind
/// it.
pub proof fn the_nearest_signature_is_found(
    signatures: Seq<TcpSignatureView>,
    observed: TcpFeaturesView,
    payload_empty: bool,
    ip_version: u8,
    j: int,
)
    requires
        0 <= j < signatures.len(),
    ensures
        last_best(tcp_scores(signatures, observed, payload_empty, ip_version)) matches Some(i) && {
            let best = tcp_score(observed, payload_empty, ip_version, signatures[i]);
            let other = tcp_score(observed, payload_empty, ip_version, signatures[j]);
            &&& 0 <= i < signatures.len()
            &&& other.matches * best.checks <= best.matches * other.checks
            &&& j > i ==> other.matches * best.checks < best.matches * other.checks
        },
{
    let scores = tcp_scores(signatures, observed, payload_empty, ip_version);
    assert forall|i: int| 0 <= i < scores.len() implies (#[trigger] scores[i] matches Some(s)
        ==> s.valid()) by {
        lemma_tcp_score_valid(observed, payload_empty, ip_version, signatures[i]);
    }
    assert(scores[j] is Some);
    best_exists(scores, j);
}

/// The TTL that a segment was likely sent with is one that stacks start with, not below
/// the observed one, and the smallest such.
pub proof fn likely_ttls_are_common_ones(observed: u8, common: u8)
    requires
        common == 32 || common == 64 || common == 128 || common == 255,
    ensures
        ({
            let initial = likely_initial_ttl(observed);
            &&& initial == 32 || initial == 64 || initial == 128 || initial == 255
            &&& observed <= initial
            &&& observed <= common ==> initial <= common
        }),
{
}

proof fn lemma_join_lacks(pieces: Seq<Seq<char>>, separator: Seq<char>, c: char)
    requires
        forall|i: int| 0 <= i < pieces.len() ==> !(#[trigger] pieces[i]).contains(c),
        !separator.contains(c),
    ensures
        !join(pieces, separator).contains(c),
    decreases pieces.len(),
{
    if pieces.len() > 1 {
        let head = pieces.drop_last();
        assert forall|i: int| 0 <= i < head.len() implies !(#[trigger] head[i]).contains(c) by {
            assert(head[i] == pieces[i]);
        }
        lemma_join_lacks(head, separator, c);
        let (front, last) = (join(head, separator), pieces.last());
        assert(!last.contains(c));
        let all = front + separator + last;
        if all.contains(c) {
            let k = choose|k: int| 0 <= k < all.len() && all[k] == c;
            if k < front.len() {
                assert(front[k] == c);
            } else if k < front.len() + separator.len() {
                assert(separator[k - front.len()] == c);
            } else {
                assert(last[k - front.len() - separator.len()] == c);
            }
        }
    } else if pieces.len() == 1 {
        assert(!pieces[0].contains(c));
    }
}

proof fn lemma_number_lacks(n: nat, c: char)
    requires
        !is_digit(c),
    ensures
        !decimal(n).contains(c),
{
    decimal_reads_back(n);
    if decimal(n).contains(c) {
        let k = choose|k: int| 0 <= k < decimal(n).len() && decimal(n)[k] == c;
        assert(is_digit(decimal(n)[k]));
    }
}

proof fn lemma_after_lacks(a: Seq<char>, b: Seq<char>, c: char)
    requires
        !a.contains(c),
        !b.contains(c),
    ensures
        !(a + b).contains(c),
{
    if (a + b).contains(c) {
        let k = choose|k: int| 0 <= k < (a + b).len() && (a + b)[k] == c;
        if k < a.len() {
            assert(a[k] == c);
        } else {
            assert(b[k - a.len()] == c);
        }
    }
}

proof fn lemma_token_lacks(option: TcpOptionKind, eol_padding: Option<u8>)
    ensures
        !option_token(option, eol_padding).contains(':'),
{
    reveal_strlit("eol+");
    reveal_strlit("nop");
    reveal_strlit("mss");
    reveal_strlit("ws");
    reveal_strlit("sok");
    reveal_strlit("sack");
    reveal_strlit("ts");
    reveal_strlit("?");
    match option {
        TcpOptionKind::Eol => {
            let padding: nat = match eol_padding {
                Some(n) => n as nat,
                None => 0,
            };
            lemma_number_lacks(padding, ':');
            lemma_after_lacks("eol+"@, decimal(padding), ':');
        },
        TcpOptionKind::Other(kind) => {
            lemma_number_lacks(kind as nat, ':');
            lemma_after_lacks("?"@, decimal(kind as nat), ':');
        },
        _ => {},
    }
}

/// A window is written in segments where it is a whole number of them, and in bytes
/// elsewhere.
pub proof fn windows_are_told_in_segments(window: u16, mss: u16, n: nat)
    ensures
        mss > 0 && window == n * mss ==> window_text(window, Some(mss)) == "mss*"@ + decimal(n),
        mss == 0 || window % mss != 0 ==> window_text(window, Some(mss)) == decimal(
            window as nat,
        ),
        window_text(window, None) == decimal(window as nat),
{
    if mss > 0 && window == n * mss {
        vstd::arithmetic::div_mod::lemma_div_multiples_vanish(n as int, mss as int);
        vstd::arithmetic::div_mod::lemma_mod_multiples_basic(n as int, mss as int);
        assert(n * mss == mss * n) by (nonlinear_arith);
    }
}

/// The notation of a SYN has eight fields with colons between them: the IP version; the
/// TTL that it started with, and how far away that was, which make up the TTL observed;
/// a question mark; the MSS, or an asterisk; the window, and the scale behind a comma;
/// the layout of the options; `df` where the packet must not be fragmented; and whether
/// it has a payload.
pub proof fn syns_are_written_in_eight_fields(
    observed: TcpFeaturesView,
    payload_empty: bool,
    ip_version: u8,
    initial: u8,
    distance: u8,
)
    requires
        initial == likely_initial_ttl(observed.ttl),
        observed.ttl + distance == initial,
    ensures
        ({
            let fields = split(signature_text(observed, payload_empty, ip_version), ':');
            &&& fields.len() == 8
            &&& fields[0] == decimal(ip_version as nat)
            &&& fields[1] == decimal(initial as nat) + seq!['+'] + decimal(distance as nat)
            &&& fields[2] == seq!['?']
            &&& observed.mss matches Some(mss) ==> fields[3] == decimal(mss as nat)
            &&& observed.mss is None ==> fields[3] == seq!['*']
            &&& observed.window_scale matches Some(scale) ==> fields[4] == window_text(
                observed.window,
                observed.mss,
            ) + seq![','] + decimal(scale as nat)
            &&& observed.window_scale is None ==> fields[4] == window_text(
                observed.window,
                observed.mss,
            ) + seq![',', '0']
            &&& fields[5] == layout_text(observed.option_order, observed.eol_padding)
            &&& observed.df ==> fields[6] == seq!['d', 'f']
            &&& !observed.df ==> fields[6].len() == 0
            &&& payload_empty ==> fields[7] == seq!['0']
            &&& !payload_empty ==> fields[7] == seq!['+']
        }),
{
    reveal_strlit(":");
    reveal_strlit("+");
    reveal_strlit(":?:");
    reveal_strlit("*");
    reveal_strlit(",");
    reveal_strlit("df");
    reveal_strlit("");
    reveal_strlit("0");
    reveal_strlit("mss*");
    assert(":"@ =~= seq![':'] && "+"@ =~= seq!['+'] && ","@ =~= seq![','] && "*"@ =~= seq!['*']);
    assert("df"@ =~= seq!['d', 'f'] && ""@ =~= Seq::<char>::empty() && "0"@ =~= seq!['0']);
    let scale: nat = match observed.window_scale {
        Some(scale) => scale as nat,
        None => 0,
    };
    let version = decimal(ip_version as nat);
    let ttl = decimal(initial as nat) + seq!['+'] + decimal(distance as nat);
    let mss = match observed.mss {
        Some(mss) => decimal(mss as nat),
        None => seq!['*'],
    };
    let window = window_text(observed.window, observed.mss) + seq![','] + decimal(scale);
    let layout = layout_text(observed.option_order, observed.eol_padding);
    let df = if observed.df {
        seq!['d', 'f']
    } else {
        Seq::empty()
    };
    let payload = if payload_empty {
        seq!['0']
    } else {
        seq!['+']
    };
    lemma_number_lacks(ip_version as nat, ':');
    lemma_number_lacks(initial as nat, ':');
    lemma_number_lacks(distance as nat, ':');
    lemma_number_lacks(scale, ':');
    lemma_number_lacks(observed.window as nat, ':');
    lemma_after_lacks(decimal(initial as nat), seq!['+'], ':');
    lemma_after_lacks(decimal(initial as nat) + seq!['+'], decimal(distance as nat), ':');
    if let Some(size) = observed.mss {
        lemma_number_lacks(size as nat, ':');
        if size > 0 && observed.window % size == 0 {
            lemma_number_lacks((observed.window / size) as nat, ':');
            lemma_after_lacks("mss*"@, decimal((observed.window / size) as nat), ':');
        }
    }
    lemma_after_lacks(window_text(observed.window, observed.mss), seq![','], ':');
    lemma_after_lacks(
        window_text(observed.window, observed.mss) + seq![','],
        decimal(scale),
        ':',
    );
    let tokens = option_tokens(observed.option_order, observed.eol_padding);
    assert forall|i: int| 0 <= i < tokens.len() implies !(#[trigger] tokens[i]).contains(':') by {
        lemma_token_lacks(observed.option_order[i], observed.eol_padding);
    }
    lemma_join_lacks(tokens, seq![','], ':');
    assert(decimal(0) =~= seq!['0']);

    let all = seq![version, ttl, seq!['?'], mss, window, layout, df, payload];
    assert(!seq!['?'].contains(':') && !df.contains(':') && !payload.contains(':'));
    assert forall|i: int| 0 <= i < all.len() implies !(#[trigger] all[i]).contains(':') by {
    }
    split_undoes_join(all, ':');
    lemma_join_eight(version, ttl, seq!['?'], mss, window, layout, df, payload);
    let colon = seq![':'];
    lemma_regroup(version + colon, decimal(initial as nat), seq!['+'], decimal(distance as nat));
    let front = version + colon + ttl;
    assert(front + ":?:"@ =~= front + colon + seq!['?'] + colon);
    lemma_regroup(
        front + colon + seq!['?'] + colon + mss + colon,
        window_text(observed.window, observed.mss),
        seq![','],
        decimal(scale),
    );
    assert(window_text(observed.window, observed.mss) + seq![','] + seq!['0']
        =~= window_text(observed.window, observed.mss) + seq![',', '0']);
}

proof fn lemma_regroup(a: Seq<char>, b: Seq<char>, c: Seq<char>, d: Seq<char>)
    ensures
        a + b + c + d == a + (b + c + d),
{
    assert(a + b + c + d =~= a + (b + c + d));
}

proof fn lemma_join_eight(
    a: Seq<char>,
    b: Seq<char>,
    c: Seq<char>,
    d: Seq<char>,
    e: Seq<char>,
    f: Seq<char>,
    g: Seq<char>,
    h: Seq<char>,
)
    ensures
        join(seq![a, b, c, d, e, f, g, h], seq![':']) == a + seq![':'] + b + seq![':'] + c
            + seq![':'] + d + seq![':'] + e + seq![':'] + f + seq![':'] + g + seq![':'] + h,
{
    let s = seq![':'];
    joining_goes_piece_by_piece(seq![a], b, s);
    joining_goes_piece_by_piece(seq![a], a, s);
    assert(seq![a].push(b) =~= seq![a, b]);
    joining_goes_piece_by_piece(seq![a, b], c, s);
    assert(seq![a, b].push(c) =~= seq![a, b, c]);
    joining_goes_piece_by_piece(seq![a, b, c], d, s);
    assert(seq![a, b, c].push(d) =~= seq![a, b, c, d]);
    joining_goes_piece_by_piece(seq![a, b, c, d], e, s);
    assert(seq![a, b, c, d].push(e) =~= seq![a, b, c, d, e]);
    joining_goes_piece_by_piece(seq![a, b, c, d, e], f, s);
    assert(seq![a, b, c, d, e].push(f) =~= seq![a, b, c, d, e, f]);
    joining_goes_piece_by_piece(seq![a, b, c, d, e, f], g, s);
    assert(seq![a, b, c, d, e, f].push(g) =~= seq![a, b, c, d, e, f, g]);
    joining_goes_piece_by_piece(seq![a, b, c, d, e, f, g], h, s);
    assert(seq![a, b, c, d, e, f, g].push(h) =~= seq![a, b, c, d, e, f, g, h]);
}

} // verus!
