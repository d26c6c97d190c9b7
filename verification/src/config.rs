//! Decoder configuration: the canonical defaults and the diagnostic and
//! heuristic switches.

use vstd::prelude::*;

verus! {

/// Behaviour of the type-0 `t0_drop_after_drift` heuristic.
#[derive(Debug, Clone, Copy, PartialEq, Eq, Structural)]
pub enum T0DropMode {
    /// No type-0 drops (default).
    Disabled,
    /// Drop the marker byte only.
    Marker,
    /// Drop the marker byte plus its declared payload bytes.
    Full,
}

impl Default for T0DropMode {
    fn default() -> (r: Self)
        ensures
            r == T0DropMode::Disabled,
    {
        T0DropMode::Disabled
    }
}

/// Per-line dispatch outcome kinds (used by the `t0_drop_kinds` filter).
#[derive(Debug, Clone, Copy, PartialEq, Eq, Structural)]
pub enum DispatchKind {
    /// Successful type-2 decode.
    Success,
    /// Type-2 V(0)-only decode (single vertical code consumed).
    V0,
    /// Type-0 marker (raw or skip).
    T0,
    /// Type-1 marker (single-pixel positions).
    T1,
    /// Type-2 decode failed (FAIL).
    Fail,
    /// Marker byte that didn't match a known type.
    Bad,
}

/// Whether two strings hold the same characters.
pub fn str_eq(a: &str, b: &str) -> (r: bool)
    ensures
        r == (a@ == b@),
{
    let n = a.unicode_len();
    if n != b.unicode_len() {
        return false;
    }
    let mut i: usize = 0;
    while i < n
        invariant
            n == a@.len(),
            n == b@.len(),
            i <= n,
            forall|k: int| 0 <= k < i ==> a@[k] == b@[k],
        decreases n - i,
    {
        if a.get_char(i) != b.get_char(i) {
            return false;
        }
        i += 1;
    }
    proof {
        assert(a@ =~= b@);
    }
    true
}

/// The drop mode a mode name selects: the empty name and `none` select
/// `Disabled`, `marker` and `full` the others.
pub open spec fn t0_drop_mode_named(name: Seq<char>) -> Option<T0DropMode> {
    if name == ""@ || name == "none"@ {
        Some(T0DropMode::Disabled)
    } else if name == "marker"@ {
        Some(T0DropMode::Marker)
    } else if name == "full"@ {
        Some(T0DropMode::Full)
    } else {
        Option::None
    }
}

/// Parse a `t0_drop_after_drift` mode name; an unknown name is an error
/// that quotes it.
pub fn parse_t0_drop_mode(s: &str) -> (r: Result<T0DropMode, String>)
    ensures
        match t0_drop_mode_named(s@) {
            Some(m) => r == Ok::<T0DropMode, String>(m),
            Option::None => r is Err && r->Err_0@ == "invalid t0-drop mode: "@ + s@,
        },
{
    if str_eq(s, "") || str_eq(s, "none") {
        Ok(T0DropMode::Disabled)
    } else if str_eq(s, "marker") {
        Ok(T0DropMode::Marker)
    } else if str_eq(s, "full") {
        Ok(T0DropMode::Full)
    } else {
        let mut msg = <String as StringExecFns>::from_str("invalid t0-drop mode: ");
        msg.append(s);
        Err(msg)
    }
}

impl std::str::FromStr for T0DropMode {
    type Err = String;

    fn from_str(s: &str) -> (r: Result<Self, Self::Err>)
        ensures
            match t0_drop_mode_named(s@) {
                Some(m) => r == Ok::<T0DropMode, String>(m),
                Option::None => r is Err && r->Err_0@ == "invalid t0-drop mode: "@ + s@,
            },
    {
        parse_t0_drop_mode(s)
    }
}

/// Decoder configuration.
///
/// `Config::default()` is the canonical behaviour. All other settings are
/// diagnostic or experimental. Construct it with [`Config::default`] or
/// [`Config::builder`].
///
/// The decoded image does not depend on `t0_reset`, `suppress_t1_all`,
/// `embed_preview` or `max_pages` (`lemma_decoding_ignores_other_switches`);
/// `embed_preview` selects the preview and `max_pages` caps the page count.
#[derive(Debug, Clone)]
#[non_exhaustive]
pub struct Config {
    /// Canonical reference-table walk. Default true.
    pub bug4: bool,
    /// Strict type-0 marker gate (only low6 == 1 raw, low6 == 3 skip;
    /// every other type-0 byte is dropped). Default true.
    pub strict_t0: bool,
    /// Drop type-3 blank markers that follow a low-confidence dispatch
    /// (sync-drift recovery). Default true.
    pub drop_blank_after_drift: bool,
    /// Treat every type-1 marker as a stray byte. Default true. No other
    /// handling of type-1 markers exists, so the dispatcher drops a type-1
    /// marker whichever the setting.
    pub suppress_t1_all: bool,
    /// Decode the preview thumbnail and attach it to the page. Default
    /// false.
    pub embed_preview: bool,
    /// Lazy bit loading (byte-by-byte refill). Diagnostic.
    pub lazy_bit_loading: bool,
    /// Reset the reference table after each chunk. Every chunk already
    /// starts from the all-white table, so this setting changes nothing.
    pub t0_reset: bool,
    /// `t0_drop_after_drift` mode: after a low-confidence dispatch, only
    /// the next type-0 marker is dropped, alone (`Marker`) or with its
    /// `line_bytes` payload (`Full`); nothing is written for it.
    pub t0_drop_after_drift: T0DropMode,
    /// Optional: only apply the t0 drop when the last dispatch was of one
    /// of these kinds.
    pub t0_drop_kinds: Option<Vec<DispatchKind>>,
    /// Bytes to scan forward after a FAIL (when no resync is committed) for
    /// the next byte that looks like a type-2 marker; 0 disables.
    pub fail_scan_forward: u32,
    /// In cascade FAIL runs (a FAIL right after a FAIL), do not advance y.
    pub suppress_t2_fail_y_in_cascade: bool,
    /// Smart-resync probe range `K` (at most 64) after an isolated FAIL:
    /// candidate marker positions within `K` bytes of the naive one, after
    /// the failed marker and inside the chunk, are probed. 0 disables it.
    pub fail_resync_max: u32,
    /// Resync probe lookahead `M` in markers (at most 64). Default 5. Each
    /// candidate scores `n_ok - n_drift` over its lookahead.
    pub fail_resync_lookahead: u32,
    /// Minimum score to commit the best resync candidate.
    pub fail_resync_min_confidence: u32,
    /// Maximum total resync probes per page; 0 (or anything above 1024)
    /// selects the cap of 1024 (`lemma_page_resync_bounded`).
    pub fail_resync_budget: u32,
    /// Reset the reference table to all-white after a low-confidence
    /// dispatch (a FAIL, a V0-only line, a stray type-0 byte, a type-1
    /// marker).
    pub reset_ref_after_drift: bool,
    /// Maximum number of image chunks (pages) per file. Default 1024.
    pub max_pages: u32,
}

/// The canonical configuration.
pub open spec fn canonical_config() -> Config {
    Config {
        bug4: true,
        strict_t0: true,
        drop_blank_after_drift: true,
        suppress_t1_all: true,
        embed_preview: false,
        lazy_bit_loading: false,
        t0_reset: false,
        t0_drop_after_drift: T0DropMode::Disabled,
        t0_drop_kinds: Option::None,
        fail_scan_forward: 0,
        suppress_t2_fail_y_in_cascade: false,
        fail_resync_max: 0,
        fail_resync_lookahead: 5,
        fail_resync_min_confidence: 0,
        fail_resync_budget: 0,
        reset_ref_after_drift: false,
        max_pages: 1024,
    }
}

impl Default for Config {
    fn default() -> (r: Self)
        ensures
            r == canonical_config(),
    {
        Config {
            bug4: true,
            strict_t0: true,
            drop_blank_after_drift: true,
            suppress_t1_all: true,
            embed_preview: false,
            lazy_bit_loading: false,
            t0_reset: false,
            t0_drop_after_drift: T0DropMode::Disabled,
            t0_drop_kinds: Option::None,
            fail_scan_forward: 0,
            suppress_t2_fail_y_in_cascade: false,
            fail_resync_max: 0,
            fail_resync_lookahead: 5,
            fail_resync_min_confidence: 0,
            fail_resync_budget: 0,
            reset_ref_after_drift: false,
            max_pages: 1024,
        }
    }
}

impl Config {
    /// Start building a custom configuration from the canonical one.
    pub fn builder() -> (r: ConfigBuilder)
        ensures
            r@ == canonical_config(),
    {
        ConfigBuilder { inner: Config::default() }
    }
}

/// Fluent builder for [`Config`].
pub struct ConfigBuilder {
    inner: Config,
}

impl View for ConfigBuilder {
    type V = Config;

    closed spec fn view(&self) -> Config {
        self.inner
    }
}

impl ConfigBuilder {
    /// Set [`Config::bug4`].
    pub fn bug4(self, value: bool) -> (r: Self)
        ensures
            r@ == (Config { bug4: value, ..self@ }),
    {
        let mut b = self;
        b.inner.bug4 = value;
        b
    }

    /// Set [`Config::strict_t0`].
    pub fn strict_t0(self, value: bool) -> (r: Self)
        ensures
            r@ == (Config { strict_t0: value, ..self@ }),
    {
        let mut b = self;
        b.inner.strict_t0 = value;
        b
    }

    /// Set [`Config::drop_blank_after_drift`].
    pub fn drop_blank_after_drift(self, value: bool) -> (r: Self)
        ensures
            r@ == (Config { drop_blank_after_drift: value, ..self@ }),
    {
        let mut b = self;
        b.inner.drop_blank_after_drift = value;
        b
    }

    /// Set [`Config::suppress_t1_all`].
    pub fn suppress_t1_all(self, value: bool) -> (r: Self)
        ensures
            r@ == (Config { suppress_t1_all: value, ..self@ }),
    {
        let mut b = self;
        b.inner.suppress_t1_all = value;
        b
    }

    /// Set [`Config::embed_preview`].
    pub fn embed_preview(self, value: bool) -> (r: Self)
        ensures
            r@ == (Config { embed_preview: value, ..self@ }),
    {
        let mut b = self;
        b.inner.embed_preview = value;
        b
    }

    /// Set [`Config::lazy_bit_loading`].
    pub fn lazy_bit_loading(self, value: bool) -> (r: Self)
        ensures
            r@ == (Config { lazy_bit_loading: value, ..self@ }),
    {
        let mut b = self;
        b.inner.lazy_bit_loading = value;
        b
    }

    /// Set [`Config::t0_reset`].
    pub fn t0_reset(self, value: bool) -> (r: Self)
        ensures
            r@ == (Config { t0_reset: value, ..self@ }),
    {
        let mut b = self;
        b.inner.t0_reset = value;
        b
    }

    /// Set [`Config::t0_drop_after_drift`].
    pub fn t0_drop_after_drift(self, value: T0DropMode) -> (r: Self)
        ensures
            r@ == (Config { t0_drop_after_drift: value, ..self@ }),
    {
        let mut b = self;
        b.inner.t0_drop_after_drift = value;
        b
    }

    /// Set [`Config::t0_drop_kinds`].
    pub fn t0_drop_kinds(self, value: Option<Vec<DispatchKind>>) -> (r: Self)
        ensures
            r@ == (Config { t0_drop_kinds: value, ..self@ }),
    {
        let mut b = self;
        b.inner.t0_drop_kinds = value;
        b
    }

    /// Set [`Config::fail_scan_forward`].
    pub fn fail_scan_forward(self, value: u32) -> (r: Self)
        ensures
            r@ == (Config { fail_scan_forward: value, ..self@ }),
    {
        let mut b = self;
        b.inner.fail_scan_forward = value;
        b
    }

    /// Set [`Config::suppress_t2_fail_y_in_cascade`].
    pub fn suppress_t2_fail_y_in_cascade(self, value: bool) -> (r: Self)
        ensures
            r@ == (Config { suppress_t2_fail_y_in_cascade: value, ..self@ }),
    {
        let mut b = self;
        b.inner.suppress_t2_fail_y_in_cascade = value;
        b
    }

    /// Set [`Config::fail_resync_max`].
    pub fn fail_resync_max(self, value: u32) -> (r: Self)
        ensures
            r@ == (Config { fail_resync_max: value, ..self@ }),
    {
        let mut b = self;
        b.inner.fail_resync_max = value;
        b
    }

    /// Set [`Config::fail_resync_lookahead`].
    pub fn fail_resync_lookahead(self, value: u32) -> (r: Self)
        ensures
            r@ == (Config { fail_resync_lookahead: value, ..self@ }),
    {
        let mut b = self;
        b.inner.fail_resync_lookahead = value;
        b
    }

    /// Set [`Config::fail_resync_min_confidence`].
    pub fn fail_resync_min_confidence(self, value: u32) -> (r: Self)
        ensures
            r@ == (Config { fail_resync_min_confidence: value, ..self@ }),
    {
        let mut b = self;
        b.inner.fail_resync_min_confidence = value;
        b
    }

    /// Set [`Config::fail_resync_budget`].
    pub fn fail_resync_budget(self, value: u32) -> (r: Self)
        ensures
            r@ == (Config { fail_resync_budget: value, ..self@ }),
    {
        let mut b = self;
        b.inner.fail_resync_budget = value;
        b
    }

    /// Set [`Config::reset_ref_after_drift`].
    pub fn reset_ref_after_drift(self, value: bool) -> (r: Self)
        ensures
            r@ == (Config { reset_ref_after_drift: value, ..self@ }),
    {
        let mut b = self;
        b.inner.reset_ref_after_drift = value;
        b
    }

    /// Set [`Config::max_pages`].
    pub fn max_pages(self, value: u32) -> (r: Self)
        ensures
            r@ == (Config { max_pages: value, ..self@ }),
    {
        let mut b = self;
        b.inner.max_pages = value;
        b
    }

    /// Finish the configuration.
    pub fn build(self) -> (r: Config)
        ensures
            r == self@,
    {
        self.inner
    }
}

} // verus!
