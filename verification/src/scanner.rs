use vstd::prelude::*;

verus! {

// The candidate grammar is boundary-driven: a linear pass over the raw bytes
// keeps a span-start offset, a bracket nesting depth, a quoted-state flag and
// an escape-pending flag.  A boundary byte met at depth zero closes the
// current span; spans that are degenerate, unbalanced or not valid UTF-8 are
// dropped rather than reported.

/// ASCII letters and digits.
pub open spec fn is_alnum_byte(b: u8) -> bool {
    (97 <= b <= 122) || (65 <= b <= 90) || (48 <= b <= 57)
}

/// Bytes allowed in a span outside brackets: letters, digits, `-`, `:`, `/`, `%`.
pub open spec fn is_body_byte(b: u8) -> bool {
    is_alnum_byte(b) || b == 45 || b == 58 || b == 47 || b == 37
}

/// `[` or `(`: opens a bracketed segment.
pub open spec fn is_opener_byte(b: u8) -> bool {
    b == 91 || b == 40
}

/// `]` or `)`: closes a bracketed segment.
pub open spec fn is_closer_byte(b: u8) -> bool {
    b == 93 || b == 41
}

/// `"`, `'` or a backtick: toggles the quoted state inside brackets.
pub open spec fn is_quote_byte(b: u8) -> bool {
    b == 34 || b == 39 || b == 96
}

/// A byte that may open a new span: a body byte, the important marker `!`,
/// or an opening bracket.
pub open spec fn is_starter_byte(b: u8) -> bool {
    is_body_byte(b) || b == 33 || is_opener_byte(b)
}

/// The byte views of a sequence of byte vectors.
pub open spec fn views_of(out: Seq<Vec<u8>>) -> Seq<Seq<u8>> {
    Seq::new(out.len(), |i: int| out[i]@)
}

fn alnum_byte(b: u8) -> (r: bool)
    ensures
        r == is_alnum_byte(b),
{
    (97 <= b && b <= 122) || (65 <= b && b <= 90) || (48 <= b && b <= 57)
}

fn body_byte(b: u8) -> (r: bool)
    ensures
        r == is_body_byte(b),
{
    alnum_byte(b) || b == 45 || b == 58 || b == 47 || b == 37
}

fn opener_byte(b: u8) -> (r: bool)
    ensures
        r == is_opener_byte(b),
{
    b == 91 || b == 40
}

fn closer_byte(b: u8) -> (r: bool)
    ensures
        r == is_closer_byte(b),
{
    b == 93 || b == 41
}

fn quote_byte(b: u8) -> (r: bool)
    ensures
        r == is_quote_byte(b),
{
    b == 34 || b == 39 || b == 96
}

fn starter_byte(b: u8) -> (r: bool)
    ensures
        r == is_starter_byte(b),
{
    body_byte(b) || b == 33 || opener_byte(b)
}

/// The scanner's whole state between two bytes of the pass.
pub ghost struct ScanState {
    /// Whether a span is currently open.
    pub in_span: bool,
    /// Offset at which the open span began.
    pub start: int,
    /// Bracket nesting depth inside the open span.
    pub depth: nat,
    /// The quote byte that opened the current quoted stretch, if any.
    pub quote: Option<u8>,
    /// Whether the previous byte was a backslash whose successor is taken verbatim.
    pub escaped: bool,
}

/// The state before any byte has been read.
pub open spec fn idle_state() -> ScanState {
    ScanState { in_span: false, start: 0, depth: 0, quote: None, escaped: false }
}

/// The state right after a span has been opened by byte `b` at offset `i`.
pub open spec fn enter_state(b: u8, i: int) -> ScanState {
    ScanState {
        in_span: true,
        start: i,
        depth: if is_opener_byte(b) {
            1nat
        } else {
            0nat
        },
        quote: None,
        escaped: false,
    }
}

/// One step of the scanner: the state after reading byte `b` at offset `i`,
/// and whether that byte closed the span `[st.start, i)`.
pub open spec fn scan_step(st: ScanState, b: u8, i: int) -> (ScanState, bool) {
    if !st.in_span {
        if is_starter_byte(b) {
            (enter_state(b, i), false)
        } else {
            (st, false)
        }
    } else if st.escaped {
        (ScanState { escaped: false, ..st }, false)
    } else if st.quote is Some {
        if b == 92 {
            (ScanState { escaped: true, ..st }, false)
        } else if st.quote == Some(b) {
            (ScanState { quote: None, ..st }, false)
        } else {
            (st, false)
        }
    } else if st.depth > 0 {
        if b == 92 {
            (ScanState { escaped: true, ..st }, false)
        } else if is_quote_byte(b) {
            (ScanState { quote: Some(b), ..st }, false)
        } else if is_opener_byte(b) {
            (ScanState { depth: st.depth + 1, ..st }, false)
        } else if is_closer_byte(b) {
            (ScanState { depth: (st.depth - 1) as nat, ..st }, false)
        } else {
            (st, false)
        }
    } else {
        if is_opener_byte(b) {
            (ScanState { depth: 1nat, ..st }, false)
        } else if is_body_byte(b) {
            (st, false)
        } else if is_starter_byte(b) {
            (enter_state(b, i), true)
        } else {
            (idle_state(), true)
        }
    }
}

/// The scanner's state after the first `i` bytes of `s`.
pub open spec fn state_at(s: Seq<u8>, i: int) -> ScanState
    decreases i,
{
    if i <= 0 {
        idle_state()
    } else {
        scan_step(state_at(s, i - 1), s[i - 1], i - 1).0
    }
}

/// The raw spans closed while reading the first `i` bytes of `s`, oldest first.
pub open spec fn raw_spans_at(s: Seq<u8>, i: int) -> Seq<Seq<u8>>
    decreases i,
{
    if i <= 0 {
        Seq::empty()
    } else {
        let st = state_at(s, i - 1);
        let prev = raw_spans_at(s, i - 1);
        if scan_step(st, s[i - 1], i - 1).1 {
            prev.push(s.subrange(st.start, i - 1))
        } else {
            prev
        }
    }
}

/// Whether the span still open at the end of the input closes cleanly: the
/// input may end a span only outside brackets, quotes and pending escapes.
pub open spec fn closes_at_end(st: ScanState) -> bool {
    st.in_span && st.depth == 0 && st.quote is None && !st.escaped
}

/// Every raw span of `s`, in the order the pass closes them.  A span left
/// open by an unbalanced bracket, an open quote or a trailing escape at the
/// end of the input is dropped.
pub open spec fn raw_spans(s: Seq<u8>) -> Seq<Seq<u8>> {
    let st = state_at(s, s.len() as int);
    if closes_at_end(st) {
        raw_spans_at(s, s.len() as int).push(s.subrange(st.start, s.len() as int))
    } else {
        raw_spans_at(s, s.len() as int)
    }
}

/// A raw span is kept as a candidate only when it mixes at least one letter
/// or digit with at least one marker, separator or bracket byte (a bare word
/// is a host-language identifier, not a utility reference), and its bytes
/// form valid UTF-8, so turning it into text can never fail.
pub open spec fn valid_candidate(c: Seq<u8>) -> bool {
    &&& c.len() > 0
    &&& exists|i: int| 0 <= i < c.len() && is_alnum_byte(#[trigger] c[i])
    &&& exists|i: int| 0 <= i < c.len() && !is_alnum_byte(#[trigger] c[i])
    &&& vstd::utf8::valid_utf8(c)
}

/// The set of candidates among a sequence of spans.
pub open spec fn valid_set_of(spans: Seq<Seq<u8>>) -> Set<Seq<u8>> {
    Set::new(|c: Seq<u8>| spans.contains(c) && valid_candidate(c))
}

/// The candidate set of one blob: the valid spans of the pass, deduplicated
/// by exact byte content.
pub open spec fn candidate_set(s: Seq<u8>) -> Set<Seq<u8>> {
    valid_set_of(raw_spans(s))
}

/// What `scan_candidates` promises: the output lists the blob's candidate
/// set exactly, each byte string once.
pub open spec fn scan_ok(s: Seq<u8>, out: Seq<Seq<u8>>) -> bool {
    &&& out.no_duplicates()
    &&& out.to_set() == candidate_set(s)
}

proof fn lemma_valid_set_push(spans: Seq<Seq<u8>>, c: Seq<u8>)
    ensures
        valid_candidate(c) ==> valid_set_of(spans.push(c)) == valid_set_of(spans).insert(c),
        !valid_candidate(c) ==> valid_set_of(spans.push(c)) == valid_set_of(spans),
{
    assert forall|x: Seq<u8>| #[trigger] spans.push(c).contains(x) implies (spans.contains(x) || x
        == c) by {
        let i = choose|i: int| 0 <= i < spans.push(c).len() && spans.push(c)[i] == x;
        if i < spans.len() {
            assert(spans[i] == x);
        }
    }
    assert forall|x: Seq<u8>| spans.contains(x) implies #[trigger] spans.push(c).contains(x) by {
        let i = choose|i: int| 0 <= i < spans.len() && spans[i] == x;
        assert(spans.push(c)[i] == x);
    }
    assert(spans.push(c)[spans.len() as int] == c);
    assert(spans.push(c).contains(c));
    if valid_candidate(c) {
        assert(valid_set_of(spans.push(c)) =~= valid_set_of(spans).insert(c));
    } else {
        assert(valid_set_of(spans.push(c)) =~= valid_set_of(spans));
    }
}

/// Copies the byte range `[from, to)` out of the blob, so that the span
/// outlives the blob itself.
fn copy_range(blob: &Vec<u8>, from: usize, to: usize) -> (r: Vec<u8>)
    requires
        from <= to <= blob@.len(),
    ensures
        r@ == blob@.subrange(from as int, to as int),
{
    let mut r: Vec<u8> = Vec::new();
    let mut j: usize = from;
    while j < to
        invariant
            from <= j <= to <= blob@.len(),
            r@ == blob@.subrange(from as int, j as int),
        decreases to - j,
    {
        r.push(blob[j]);
        proof {
            assert(r@ =~= blob@.subrange(from as int, j + 1 as int));
        }
        j += 1;
    }
    r
}

/// Relies on str::from_utf8: it returns Ok exactly when the bytes are a
/// valid UTF-8 encoding.
#[verifier::external_body]
fn utf8_check(b: &Vec<u8>) -> (r: bool)
    ensures
        r == vstd::utf8::valid_utf8(b@),
{
    core::str::from_utf8(b).is_ok()
}

/// Whether the span mixes a letter-or-digit byte with a byte of another kind.
fn mixed_span(c: &Vec<u8>) -> (r: bool)
    ensures
        r == ((exists|i: int| 0 <= i < c@.len() && is_alnum_byte(#[trigger] c@[i])) && (exists|
            i: int,
        |
            0 <= i < c@.len() && !is_alnum_byte(#[trigger] c@[i]))),
{
    let mut has_alnum = false;
    let mut has_other = false;
    let mut i: usize = 0;
    while i < c.len()
        invariant
            i <= c@.len(),
            has_alnum == exists|j: int| 0 <= j < i && is_alnum_byte(#[trigger] c@[j]),
            has_other == exists|j: int| 0 <= j < i && !is_alnum_byte(#[trigger] c@[j]),
        decreases c@.len() - i,
    {
        if alnum_byte(c[i]) {
            has_alnum = true;
        } else {
            has_other = true;
        }
        i += 1;
    }
    has_alnum && has_other
}

fn bytes_eq(a: &Vec<u8>, b: &Vec<u8>) -> (r: bool)
    ensures
        r == (a@ == b@),
{
    if a.len() != b.len() {
        return false;
    }
    let mut i: usize = 0;
    while i < a.len()
        invariant
            i <= a@.len(),
            a@.len() == b@.len(),
            forall|j: int| 0 <= j < i ==> a@[j] == b@[j],
        decreases a@.len() - i,
    {
        if a[i] != b[i] {
            return false;
        }
        i += 1;
    }
    proof {
        assert(a@ =~= b@);
    }
    true
}

/// Whether the set already holds a span with exactly these bytes.
pub(crate) fn already_seen(out: &Vec<Vec<u8>>, c: &Vec<u8>) -> (r: bool)
    ensures
        r == views_of(out@).contains(c@),
{
    let mut i: usize = 0;
    while i < out.len()
        invariant
            i <= out@.len(),
            forall|j: int| 0 <= j < i ==> views_of(out@)[j] != c@,
        decreases out@.len() - i,
    {
        if bytes_eq(&out[i], c) {
            assert(views_of(out@)[i as int] == c@);
            return true;
        }
        i += 1;
    }
    assert forall|j: int| 0 <= j < out@.len() implies views_of(out@)[j] != c@ by {}
    false
}

/// Closes the span `[from, to)` of the blob: the span joins the per-blob set
/// when it is a candidate not yet seen, and is dropped otherwise.
fn record_span(out: &mut Vec<Vec<u8>>, blob: &Vec<u8>, from: usize, to: usize)
    requires
        from <= to <= blob@.len(),
        views_of(old(out)@).no_duplicates(),
    ensures
        views_of(final(out)@).no_duplicates(),
        valid_candidate(blob@.subrange(from as int, to as int)) ==> views_of(
            final(out)@,
        ).to_set() == views_of(old(out)@).to_set().insert(
            blob@.subrange(from as int, to as int),
        ),
        !valid_candidate(blob@.subrange(from as int, to as int)) ==> views_of(final(out)@)
            == views_of(old(out)@),
{
    let ghost span = blob@.subrange(from as int, to as int);
    let c = copy_range(blob, from, to);
    let valid = to - from > 0 && mixed_span(&c) && utf8_check(&c);
    assert(valid == valid_candidate(span));
    if valid {
        if !already_seen(out, &c) {
            let ghost before = views_of(out@);
            out.push(c);
            proof {
                assert(views_of(out@) =~= before.push(span));
                lemma_to_set_push(before, span);
                assert(views_of(out@).no_duplicates()) by {
                    assert(forall|j: int|
                        0 <= j < before.len() ==> views_of(out@)[j] == before[j]);
                    assert(views_of(out@)[before.len() as int] == span);
                }
            }
        } else {
            proof {
                assert(views_of(out@).to_set().contains(span));
                assert(views_of(out@).to_set() =~= views_of(out@).to_set().insert(span));
            }
        }
    }
}

pub(crate) proof fn lemma_to_set_push(s: Seq<Seq<u8>>, c: Seq<u8>)
    ensures
        s.push(c).to_set() == s.to_set().insert(c),
{
    assert forall|x: Seq<u8>| #[trigger] s.push(c).contains(x) implies (s.contains(x) || x
        == c) by {
        let i = choose|i: int| 0 <= i < s.push(c).len() && s.push(c)[i] == x;
        if i < s.len() {
            assert(s[i] == x);
        }
    }
    assert forall|x: Seq<u8>| s.contains(x) implies #[trigger] s.push(c).contains(x) by {
        let i = choose|i: int| 0 <= i < s.len() && s[i] == x;
        assert(s.push(c)[i] == x);
    }
    assert(s.push(c)[s.len() as int] == c);
    assert(s.push(c).contains(c));
    assert(s.push(c).to_set() =~= s.to_set().insert(c));
}

/// Scans one blob and returns its candidate set: every maximal span of the
/// grammar that is a valid candidate, each byte string exactly once.
pub fn scan_candidates(blob: &Vec<u8>) -> (r: Vec<Vec<u8>>)
    ensures
        scan_ok(blob@, views_of(r@)),
{
    let ghost s = blob@;
    let n = blob.len();
    let mut out: Vec<Vec<u8>> = Vec::new();
    let mut i: usize = 0;
    let mut in_span: bool = false;
    let mut start: usize = 0;
    let mut depth: usize = 0;
    let mut quote: Option<u8> = None;
    let mut escaped: bool = false;
    proof {
        assert(views_of(out@) =~= Seq::<Seq<u8>>::empty());
        assert(views_of(out@).to_set() =~= valid_set_of(raw_spans_at(s, 0)));
    }
    while i < n
        invariant
            n == s.len(),
            s == blob@,
            i <= n,
            state_at(s, i as int) == (ScanState {
                in_span,
                start: start as int,
                depth: depth as nat,
                quote,
                escaped,
            }),
            in_span ==> start <= i,
            depth <= i,
            views_of(out@).no_duplicates(),
            views_of(out@).to_set() == valid_set_of(raw_spans_at(s, i as int)),
        decreases n - i,
    {
        let ghost st = state_at(s, i as int);
        let ghost stepped = scan_step(st, s[i as int], i as int);
        let b = blob[i];
        if !in_span {
            if starter_byte(b) {
                in_span = true;
                start = i;
                depth = if opener_byte(b) {
                    1
                } else {
                    0
                };
                quote = None;
                escaped = false;
            }
        } else if escaped {
            escaped = false;
        } else if let Some(q) = quote {
            if b == 92 {
                escaped = true;
            } else if b == q {
                quote = None;
            }
        } else if depth > 0 {
            if b == 92 {
                escaped = true;
            } else if quote_byte(b) {
                quote = Some(b);
            } else if opener_byte(b) {
                depth = depth + 1;
            } else if closer_byte(b) {
                depth = depth - 1;
            }
        } else {
            if opener_byte(b) {
                depth = 1;
            } else if body_byte(b) {
                // the span keeps growing
            } else {
                // boundary at depth zero: the span [start, i) closes here
                record_span(&mut out, blob, start, i);
                proof {
                    lemma_valid_set_push(raw_spans_at(s, i as int), s.subrange(st.start, i as int));
                }
                if starter_byte(b) {
                    in_span = true;
                    start = i;
                    depth = if opener_byte(b) {
                        1
                    } else {
                        0
                    };
                    quote = None;
                    escaped = false;
                } else {
                    in_span = false;
                    start = 0;
                    depth = 0;
                    quote = None;
                    escaped = false;
                }
            }
        }
        proof {
            assert(state_at(s, i + 1 as int) == stepped.0);
            assert(raw_spans_at(s, i + 1 as int) == (if stepped.1 {
                raw_spans_at(s, i as int).push(s.subrange(st.start, i as int))
            } else {
                raw_spans_at(s, i as int)
            }));
        }
        i += 1;
    }
    // the input ended: a span still open closes cleanly only outside
    // brackets, quotes and pending escapes
    if in_span && depth == 0 && quote.is_none() && !escaped {
        assert(closes_at_end(state_at(s, n as int)));
        record_span(&mut out, blob, start, n);
        proof {
            lemma_valid_set_push(
                raw_spans_at(s, n as int),
                s.subrange(state_at(s, n as int).start, n as int),
            );
        }
    } else {
        assert(!closes_at_end(state_at(s, n as int)));
    }
    assert(views_of(out@).to_set() == valid_set_of(raw_spans(s)));
    out
}

} // verus!
