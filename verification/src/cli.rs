//! Command-line options of the converter and what they turn into: the
//! decoder configuration, and the per-page statistics line.

use vstd::prelude::*;
use crate::config::{Config, DispatchKind, T0DropMode, str_eq};
use crate::decoder::Page;
use crate::text::{dec_chars, push_decimal};

verus! {

/// The decoding options of the command line.
#[derive(Debug, Clone)]
pub struct CliOptions {
    /// Decode and append the preview thumbnail pages.
    pub preview: bool,
    /// Disable the canonical reference-table walk.
    pub no_bug4: bool,
    /// Disable the strict type-0 marker gate.
    pub no_strict_t0: bool,
    /// Keep blank markers that follow drift.
    pub keep_drift_blanks: bool,
    /// Keep type-1 dispatches.
    pub keep_t1_dispatches: bool,
    /// Byte-by-byte bit refill.
    pub lazy_bit_loading: bool,
    /// Reset the reference table at chunk start.
    pub t0_reset: bool,
    /// Type-0 drop-after-drift mode.
    pub t0_drop_after_drift: T0DropMode,
    /// Comma-separated dispatch kinds that restrict the type-0 drop.
    pub t0_drop_kinds: Option<String>,
    /// Bytes to scan forward after a FAIL.
    pub fail_scan_forward: u32,
    /// In FAIL cascades, do not advance y on each FAIL.
    pub suppress_t2_fail_y_in_cascade: bool,
    /// Smart-resync probe range.
    pub fail_resync_max: u32,
    /// Smart-resync lookahead in lines.
    pub fail_resync_lookahead: u32,
    /// Smart-resync minimum confidence margin.
    pub fail_resync_min_confidence: u32,
    /// Maximum resync probes per page.
    pub fail_resync_budget: u32,
    /// Reset the reference table after a drift event.
    pub reset_ref_after_drift: bool,
    /// Maximum image-chunk count per file.
    pub max_pages: u32,
}

/// Whether `c` has the Unicode `White_Space` property, the whitespace
/// that `str::trim` removes.
pub open spec fn is_white_space(c: char) -> bool {
    let v = c as u32;
    ||| 0x09 <= v <= 0x0D
    ||| v == 0x20
    ||| v == 0x85
    ||| v == 0xA0
    ||| v == 0x1680
    ||| 0x2000 <= v <= 0x200A
    ||| v == 0x2028
    ||| v == 0x2029
    ||| v == 0x202F
    ||| v == 0x205F
    ||| v == 0x3000
}

/// `s` without its leading whitespace.
pub open spec fn trim_front(s: Seq<char>) -> Seq<char>
    decreases s.len(),
{
    if s.len() > 0 && is_white_space(s[0]) {
        trim_front(s.drop_first())
    } else {
        s
    }
}

/// `s` without its trailing whitespace.
pub open spec fn trim_back(s: Seq<char>) -> Seq<char>
    decreases s.len(),
{
    if s.len() > 0 && is_white_space(s.last()) {
        trim_back(s.drop_last())
    } else {
        s
    }
}

/// `s` without its leading and trailing whitespace.
pub open spec fn trimmed(s: Seq<char>) -> Seq<char> {
    trim_back(trim_front(s))
}

fn is_white_space_char(c: char) -> (r: bool)
    ensures
        r == is_white_space(c),
{
    let v = c as u32;
    (0x09 <= v && v <= 0x0D) || v == 0x20 || v == 0x85 || v == 0xA0 || v == 0x1680 || (0x2000 <= v
        && v <= 0x200A) || v == 0x2028 || v == 0x2029 || v == 0x202F || v == 0x205F || v == 0x3000
}

/// `s` without its leading and trailing `White_Space` characters, as
/// `str::trim` returns it.
fn trim_str(s: &str) -> (r: &str)
    ensures
        r@ == trimmed(s@),
{
    let n = s.unicode_len();
    let mut a: usize = 0;
    proof {
        assert(s@.subrange(0, n as int) =~= s@);
    }
    while a < n && is_white_space_char(s.get_char(a))
        invariant
            n == s@.len(),
            a <= n,
            trim_front(s@) == trim_front(s@.subrange(a as int, n as int)),
        decreases n - a,
    {
        proof {
            let x = s@.subrange(a as int, n as int);
            assert(x.drop_first() =~= s@.subrange(a + 1, n as int));
        }
        a += 1;
    }
    let ghost f = s@.subrange(a as int, n as int);
    proof {
        if a < n {
            assert(!is_white_space(f[0]));
        }
        assert(trim_front(f) == f);
    }
    let mut b: usize = n;
    while b > a && is_white_space_char(s.get_char(b - 1))
        invariant
            n == s@.len(),
            a <= b <= n,
            f == s@.subrange(a as int, n as int),
            trim_back(f) == trim_back(s@.subrange(a as int, b as int)),
        decreases b - a,
    {
        proof {
            let x = s@.subrange(a as int, b as int);
            assert(x.drop_last() =~= s@.subrange(a as int, b - 1));
        }
        b -= 1;
    }
    proof {
        let g = s@.subrange(a as int, b as int);
        if a < b {
            assert(!is_white_space(g.last()));
        }
        assert(trim_back(g) == g);
    }
    s.substring_char(a, b)
}

/// `s` in lower case, as `str::to_lowercase` returns it.
pub uninterp spec fn lowercased(s: Seq<char>) -> Seq<char>;

/// Calls `str::to_lowercase`. Not proved here: the contract only names
/// the result (`lowercased` of the input), which std computes.
#[verifier::external_body]
fn lowercase_str(s: &str) -> (r: String)
    ensures
        r@ == lowercased(s@),
{
    s.to_lowercase()
}

/// The pieces of `s` between commas (one piece when there is none).
pub open spec fn split_commas(s: Seq<char>) -> Seq<Seq<char>>
    decreases s.len(),
{
    if s.len() == 0 {
        seq![Seq::<char>::empty()]
    } else if s.last() == ',' {
        split_commas(s.drop_last()) + seq![Seq::<char>::empty()]
    } else {
        let rest = split_commas(s.drop_last());
        rest.update(rest.len() - 1, rest.last().push(s.last()))
    }
}

/// The dispatch kind a (trimmed, lower-case) name selects.
pub open spec fn kind_named(name: Seq<char>) -> Option<DispatchKind> {
    if name == "ok"@ {
        Some(DispatchKind::Success)
    } else if name == "v0"@ {
        Some(DispatchKind::V0)
    } else if name == "t0"@ {
        Some(DispatchKind::T0)
    } else if name == "t1"@ {
        Some(DispatchKind::T1)
    } else if name == "fail"@ {
        Some(DispatchKind::Fail)
    } else if name == "bad"@ {
        Some(DispatchKind::Bad)
    } else {
        None
    }
}

/// The name a piece of the list stands for: trimmed, then lower-cased.
pub open spec fn piece_name(piece: Seq<char>) -> Seq<char> {
    lowercased(trimmed(piece))
}

/// The kinds the pieces name, in order, or the message about the first
/// piece that names none.
pub open spec fn kinds_of(pieces: Seq<Seq<char>>) -> Result<Seq<DispatchKind>, Seq<char>>
    decreases pieces.len(),
{
    if pieces.len() == 0 {
        Ok(Seq::empty())
    } else {
        match kinds_of(pieces.drop_last()) {
            Err(e) => Err(e),
            Ok(ks) => match kind_named(piece_name(pieces.last())) {
                Some(k) => Ok(ks.push(k)),
                None => Err("unknown dispatch kind: "@ + piece_name(pieces.last())),
            },
        }
    }
}

/// Name one piece of a dispatch-kind list.
fn kind_of_piece(piece: &str) -> (r: Result<DispatchKind, String>)
    ensures
        match kind_named(piece_name(piece@)) {
            Some(k) => r == Ok::<DispatchKind, String>(k),
            None => r is Err && r->Err_0@ == "unknown dispatch kind: "@ + piece_name(piece@),
        },
{
    let t = trim_str(piece);
    let k = lowercase_str(t);
    let name = k.as_str();
    if str_eq(name, "ok") {
        Ok(DispatchKind::Success)
    } else if str_eq(name, "v0") {
        Ok(DispatchKind::V0)
    } else if str_eq(name, "t0") {
        Ok(DispatchKind::T0)
    } else if str_eq(name, "t1") {
        Ok(DispatchKind::T1)
    } else if str_eq(name, "fail") {
        Ok(DispatchKind::Fail)
    } else if str_eq(name, "bad") {
        Ok(DispatchKind::Bad)
    } else {
        let mut msg = <String as StringExecFns>::from_str("unknown dispatch kind: ");
        msg.append(name);
        Err(msg)
    }
}

/// Parse a comma-separated list of dispatch kinds (`ok`, `v0`, `t0`,
/// `t1`, `fail`, `bad`; each piece trimmed and lower-cased). The first
/// piece that names no kind is reported.
pub fn parse_dispatch_kinds(s: &str) -> (r: Result<Vec<DispatchKind>, String>)
    ensures
        match kinds_of(split_commas(s@)) {
            Ok(ks) => r is Ok && r->Ok_0@ == ks,
            Err(e) => r is Err && r->Err_0@ == e,
        },
{
    let n = s.unicode_len();
    let mut kinds: Vec<DispatchKind> = Vec::new();
    let mut start: usize = 0;
    let mut i: usize = 0;
    let ghost mut done: Seq<Seq<char>> = Seq::empty();
    proof {
        assert(s@.take(0) =~= Seq::<char>::empty());
    }
    while i < n
        invariant
            n == s@.len(),
            start <= i <= n,
            split_commas(s@.take(i as int)) == done.push(s@.subrange(start as int, i as int)),
            kinds_of(done) == Ok::<Seq<DispatchKind>, Seq<char>>(kinds@),
        decreases n - i,
    {
        let c = s.get_char(i);
        proof {
            assert(s@.take(i + 1).drop_last() =~= s@.take(i as int));
            assert(s@.take(i + 1).last() == c);
        }
        if c == ',' {
            let piece = s.substring_char(start, i);
            match kind_of_piece(piece) {
                Ok(k) => {
                    proof {
                        let d2 = done.push(piece@);
                        assert(d2.drop_last() =~= done);
                        done = d2;
                    }
                    kinds.push(k);
                },
                Err(e) => {
                    proof {
                        let d2 = done.push(piece@);
                        assert(d2.drop_last() =~= done);
                        lemma_kinds_of_prefix_err(s@, d2, i as int);
                    }
                    return Err(e);
                },
            }
            start = i + 1;
            proof {
                assert(s@.subrange(start as int, i + 1) =~= Seq::<char>::empty());
            }
        } else {
            proof {
                let last = s@.subrange(start as int, i as int);
                assert(s@.subrange(start as int, i + 1) =~= last.push(c));
                assert(done.push(last).update(done.len() as int, last.push(c)) =~= done.push(
                    last.push(c),
                ));
            }
        }
        i += 1;
    }
    let piece = s.substring_char(start, n);
    proof {
        assert(s@.take(n as int) =~= s@);
        let d2 = done.push(piece@);
        assert(d2.drop_last() =~= done);
    }
    match kind_of_piece(piece) {
        Ok(k) => {
            kinds.push(k);
            Ok(kinds)
        },
        Err(e) => Err(e),
    }
}

/// Once the pieces of a prefix fail to parse, the whole list fails with
/// the same message.
proof fn lemma_kinds_of_prefix_err(s: Seq<char>, pieces: Seq<Seq<char>>, i: int)
    requires
        kinds_of(pieces) is Err,
        0 <= i < s.len(),
        s[i] == ',',
        split_commas(s.take(i + 1)) == pieces + seq![Seq::<char>::empty()],
    ensures
        kinds_of(split_commas(s)) == kinds_of(pieces),
{
    lemma_split_commas_extends(s, i + 1);
    let all = split_commas(s);
    let p = split_commas(s.take(i + 1));
    assert(p.len() >= 1);
    lemma_kinds_of_err_extends(all, pieces);
}

/// The pieces of a prefix, all but its last piece, are a prefix of the
/// pieces of the whole string.
proof fn lemma_split_commas_extends(s: Seq<char>, j: int)
    requires
        0 <= j <= s.len(),
    ensures
        split_commas(s.take(j)).len() <= split_commas(s).len(),
        forall|k: int|
            0 <= k < split_commas(s.take(j)).len() - 1 ==> split_commas(s)[k] == split_commas(
                s.take(j),
            )[k],
        split_commas(s.take(j)).len() >= 1,
    decreases s.len() - j,
{
    lemma_split_commas_nonempty(s.take(j));
    if j == s.len() {
        assert(s.take(j) =~= s);
    } else {
        lemma_split_commas_extends(s, j + 1);
        let a = split_commas(s.take(j));
        let b = split_commas(s.take(j + 1));
        assert(s.take(j + 1).drop_last() =~= s.take(j));
        if s[j] == ',' {
            assert(b == a + seq![Seq::<char>::empty()]);
        } else {
            assert(b == a.update(a.len() - 1, a.last().push(s[j])));
        }
    }
}

proof fn lemma_split_commas_nonempty(s: Seq<char>)
    ensures
        split_commas(s).len() >= 1,
    decreases s.len(),
{
    if s.len() > 0 {
        lemma_split_commas_nonempty(s.drop_last());
    }
}

/// A failing prefix of pieces makes every extension fail the same way.
proof fn lemma_kinds_of_err_extends(all: Seq<Seq<char>>, pieces: Seq<Seq<char>>)
    requires
        kinds_of(pieces) is Err,
        pieces.len() <= all.len(),
        forall|k: int| 0 <= k < pieces.len() ==> all[k] == pieces[k],
    ensures
        kinds_of(all) == kinds_of(pieces),
    decreases all.len(),
{
    if all.len() == pieces.len() {
        assert(all =~= pieces);
    } else {
        lemma_kinds_of_err_extends(all.drop_last(), pieces);
    }
}

/// Whether `c` is the configuration the options select, with `kinds` the
/// parsed `t0_drop_kinds` list.
pub open spec fn config_of_options(c: Config, o: CliOptions, kinds: Option<Seq<DispatchKind>>) -> bool {
    &&& c.embed_preview == o.preview
    &&& c.bug4 == !o.no_bug4
    &&& c.strict_t0 == !o.no_strict_t0
    &&& c.drop_blank_after_drift == !o.keep_drift_blanks
    &&& c.suppress_t1_all == !o.keep_t1_dispatches
    &&& c.lazy_bit_loading == o.lazy_bit_loading
    &&& c.t0_reset == o.t0_reset
    &&& c.t0_drop_after_drift == o.t0_drop_after_drift
    &&& match kinds {
        None => c.t0_drop_kinds is None,
        Some(ks) => c.t0_drop_kinds matches Some(v) && v@ == ks,
    }
    &&& c.fail_scan_forward == o.fail_scan_forward
    &&& c.suppress_t2_fail_y_in_cascade == o.suppress_t2_fail_y_in_cascade
    &&& c.fail_resync_max == o.fail_resync_max
    &&& c.fail_resync_lookahead == o.fail_resync_lookahead
    &&& c.fail_resync_min_confidence == o.fail_resync_min_confidence
    &&& c.fail_resync_budget == o.fail_resync_budget
    &&& c.reset_ref_after_drift == o.reset_ref_after_drift
    &&& c.max_pages == o.max_pages
}

/// Turn the command-line options into a decoder configuration; fails
/// when the `t0_drop_kinds` list does not parse.
pub fn build_config(o: &CliOptions) -> (r: Result<Config, String>)
    ensures
        match o.t0_drop_kinds {
            None => r matches Ok(c) && config_of_options(c, *o, None),
            Some(s) => match kinds_of(split_commas(s@)) {
                Ok(ks) => r matches Ok(c) && config_of_options(c, *o, Some(ks)),
                Err(e) => r matches Err(m) && m@ == e,
            },
        },
{
    let mut b = Config::builder();
    b = b.embed_preview(o.preview);
    b = b.bug4(!o.no_bug4);
    b = b.strict_t0(!o.no_strict_t0);
    b = b.drop_blank_after_drift(!o.keep_drift_blanks);
    b = b.suppress_t1_all(!o.keep_t1_dispatches);
    b = b.lazy_bit_loading(o.lazy_bit_loading);
    b = b.t0_reset(o.t0_reset);
    b = b.t0_drop_after_drift(o.t0_drop_after_drift);
    match &o.t0_drop_kinds {
        Some(s) => match parse_dispatch_kinds(s.as_str()) {
            Ok(kinds) => {
                b = b.t0_drop_kinds(Some(kinds));
            },
            Err(e) => {
                return Err(e);
            },
        },
        None => {},
    }
    b = b.fail_scan_forward(o.fail_scan_forward);
    b = b.suppress_t2_fail_y_in_cascade(o.suppress_t2_fail_y_in_cascade);
    b = b.fail_resync_max(o.fail_resync_max);
    b = b.fail_resync_lookahead(o.fail_resync_lookahead);
    b = b.fail_resync_min_confidence(o.fail_resync_min_confidence);
    b = b.fail_resync_budget(o.fail_resync_budget);
    b = b.reset_ref_after_drift(o.reset_ref_after_drift);
    b = b.max_pages(o.max_pages);
    Ok(b.build())
}


/// `Some(n)` or `None`, as `{:?}` prints an `Option<u32>`.
pub open spec fn option_text(v: Option<u32>) -> Seq<char> {
    match v {
        Some(n) => "Some("@ + dec_chars(n as nat) + ")"@,
        None => "None"@,
    }
}

/// The statistics line of page `index`.
pub open spec fn stats_line(index: nat, page: Page) -> Seq<char> {
    let s = page.stats;
    "  page "@ + dec_chars(index) + ": "@ + dec_chars(page.width as nat) + "x"@ + dec_chars(
        page.height as nat,
    ) + " ok="@ + dec_chars(s.n_ok as nat) + " v0="@ + dec_chars(s.n_v0 as nat) + " t0="@
        + dec_chars(s.n_t0 as nat) + " t1="@ + dec_chars(s.n_t1 as nat) + " fail="@ + dec_chars(
        s.n_fail as nat,
    ) + " max_consec_fail="@ + dec_chars(s.max_consecutive_fail as nat) + " first_fail_y="@
        + option_text(s.first_fail_y) + " resync_probes="@ + dec_chars(s.resync_probes as nat)
        + " resync_hits="@ + dec_chars(s.resync_hits as nat) + " blank_drops_drift="@ + dec_chars(
        s.blank_drops_after_drift as nat,
    )
}

/// The per-page statistics line that `--stats` prints.
pub fn page_stats_line(index: usize, page: &Page) -> (r: String)
    ensures
        r@ == stats_line(index as nat, *page),
{
    let s = &page.stats;
    let mut out = <String as StringExecFns>::from_str("  page ");
    push_decimal(&mut out, index as u64);
    out.append(": ");
    push_decimal(&mut out, page.width as u64);
    out.append("x");
    push_decimal(&mut out, page.height as u64);
    out.append(" ok=");
    push_decimal(&mut out, s.n_ok as u64);
    out.append(" v0=");
    push_decimal(&mut out, s.n_v0 as u64);
    out.append(" t0=");
    push_decimal(&mut out, s.n_t0 as u64);
    out.append(" t1=");
    push_decimal(&mut out, s.n_t1 as u64);
    out.append(" fail=");
    push_decimal(&mut out, s.n_fail as u64);
    out.append(" max_consec_fail=");
    push_decimal(&mut out, s.max_consecutive_fail as u64);
    out.append(" first_fail_y=");
    match s.first_fail_y {
        Some(y) => {
            out.append("Some(");
            push_decimal(&mut out, y as u64);
            out.append(")");
        },
        None => {
            out.append("None");
        },
    }
    out.append(" resync_probes=");
    push_decimal(&mut out, s.resync_probes as u64);
    out.append(" resync_hits=");
    push_decimal(&mut out, s.resync_hits as u64);
    out.append(" blank_drops_drift=");
    push_decimal(&mut out, s.blank_drops_after_drift as u64);
    proof {
        assert(out@ =~= stats_line(index as nat, *page));
    }
    out
}

} // verus!
