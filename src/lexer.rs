use vstd::prelude::*;

verus! {

/// A recognised symbol, with its character offset in the source. Brackets also
/// carry their nesting depth: an opening bracket the depth before it, a closing
/// bracket the depth after it, so that partners share a depth.
#[derive(Debug, Copy, Clone, PartialEq, Eq, Structural)]
pub enum RawToken {
    Idp(usize),
    Ddp(usize),
    Inc(usize),
    Dec(usize),
    Out(usize),
    Acc(usize),
    Jfw { pos: usize, depth: isize },
    Jbw { pos: usize, depth: isize },
    Sys(usize),
}

/// One instruction of a linked program. A jump holds the index of the
/// partner bracket.
#[derive(Debug, Copy, Clone, PartialEq, Eq, Structural)]
pub enum Token {
    Idp,
    Ddp,
    Inc,
    Dec,
    Out,
    Acc,
    Jfw { instruction_ref: usize },
    Jbw { instruction_ref: usize },
    Sys,
}

/// A bracket without a partner, with its character offset in the source.
#[derive(Debug, Copy, Clone, PartialEq, Eq, Structural)]
pub enum LexingError {
    MissingClosingBracket { pos: usize },
    MissingOpeningBracket { pos: usize },
}

/// The nine symbols that carry meaning; every other character is a comment.
pub open spec fn is_command(c: char) -> bool {
    c == '>' || c == '<' || c == '+' || c == '-' || c == '.' || c == ','
        || c == '[' || c == ']' || c == '%'
}

/// Opening brackets minus closing brackets in `s`.
pub open spec fn depth_after(s: Seq<char>) -> int
    decreases s.len(),
{
    if s.len() == 0 {
        0
    } else {
        let d = depth_after(s.drop_last());
        if s.last() == '[' {
            d + 1
        } else if s.last() == ']' {
            d - 1
        } else {
            d
        }
    }
}

/// The raw token for character `c` at offset `pos`, `depth` being the depth
/// before it.
pub open spec fn classify(c: char, pos: int, depth: int) -> Option<RawToken> {
    let p = pos as usize;
    if c == '>' {
        Some(RawToken::Idp(p))
    } else if c == '<' {
        Some(RawToken::Ddp(p))
    } else if c == '+' {
        Some(RawToken::Inc(p))
    } else if c == '-' {
        Some(RawToken::Dec(p))
    } else if c == '.' {
        Some(RawToken::Out(p))
    } else if c == ',' {
        Some(RawToken::Acc(p))
    } else if c == '[' {
        Some(RawToken::Jfw { pos: p, depth: depth as isize })
    } else if c == ']' {
        Some(RawToken::Jbw { pos: p, depth: (depth - 1) as isize })
    } else if c == '%' {
        Some(RawToken::Sys(p))
    } else {
        None
    }
}

/// The raw tokens of source `s`, in order.
pub open spec fn raw_tokens_of(s: Seq<char>) -> Seq<RawToken>
    decreases s.len(),
{
    if s.len() == 0 {
        seq![]
    } else {
        let p = s.drop_last();
        match classify(s.last(), p.len() as int, depth_after(p)) {
            Some(t) => raw_tokens_of(p).push(t),
            None => raw_tokens_of(p),
        }
    }
}

pub open spec fn is_close_at(raw: Seq<RawToken>, j: int, d: isize) -> bool {
    match raw[j] {
        RawToken::Jbw { depth, .. } => depth == d,
        _ => false,
    }
}

pub open spec fn is_open_at(raw: Seq<RawToken>, j: int, d: isize) -> bool {
    match raw[j] {
        RawToken::Jfw { depth, .. } => depth == d,
        _ => false,
    }
}

/// The first index from `j` on that holds a closing bracket of depth `d`.
pub open spec fn find_close(raw: Seq<RawToken>, j: int, d: isize) -> Option<int>
    decreases raw.len() - j,
{
    if j >= raw.len() {
        None
    } else if 0 <= j && is_close_at(raw, j, d) {
        Some(j)
    } else {
        find_close(raw, j + 1, d)
    }
}

/// The last index up to `j` that holds an opening bracket of depth `d`.
pub open spec fn find_open(raw: Seq<RawToken>, j: int, d: isize) -> Option<int>
    decreases j + 1,
{
    if j < 0 {
        None
    } else if j < raw.len() && is_open_at(raw, j, d) {
        Some(j)
    } else {
        find_open(raw, j - 1, d)
    }
}

/// The instruction for raw token `i`, or the error its bracket raises.
pub open spec fn link_one(raw: Seq<RawToken>, i: int) -> Result<Token, LexingError> {
    match raw[i] {
        RawToken::Idp(_) => Ok(Token::Idp),
        RawToken::Ddp(_) => Ok(Token::Ddp),
        RawToken::Inc(_) => Ok(Token::Inc),
        RawToken::Dec(_) => Ok(Token::Dec),
        RawToken::Out(_) => Ok(Token::Out),
        RawToken::Acc(_) => Ok(Token::Acc),
        RawToken::Jfw { pos, depth } => match find_close(raw, i, depth) {
            Some(j) => Ok(Token::Jfw { instruction_ref: j as usize }),
            None => Err(LexingError::MissingClosingBracket { pos }),
        },
        RawToken::Jbw { pos, depth } => match find_open(raw, i, depth) {
            Some(j) => Ok(Token::Jbw { instruction_ref: j as usize }),
            None => Err(LexingError::MissingOpeningBracket { pos }),
        },
        RawToken::Sys(_) => Ok(Token::Sys),
    }
}

/// Linking of the first `n` raw tokens: their instructions, or the error of
/// the first one that fails.
pub open spec fn link_prefix(raw: Seq<RawToken>, n: nat) -> Result<Seq<Token>, LexingError>
    decreases n,
{
    if n == 0 {
        Ok(seq![])
    } else {
        match link_prefix(raw, (n - 1) as nat) {
            Err(e) => Err(e),
            Ok(ts) => match link_one(raw, n - 1) {
                Ok(t) => Ok(ts.push(t)),
                Err(e) => Err(e),
            },
        }
    }
}

pub open spec fn link_all(raw: Seq<RawToken>) -> Result<Seq<Token>, LexingError> {
    link_prefix(raw, raw.len())
}

/// What tokenizing source `s` gives.
pub open spec fn tokens_of(s: Seq<char>) -> Result<Seq<Token>, LexingError> {
    link_all(raw_tokens_of(s))
}

pub open spec fn result_matches(
    r: Result<Vec<Token>, LexingError>,
    m: Result<Seq<Token>, LexingError>,
) -> bool {
    match r {
        Ok(v) => m == Ok::<Seq<Token>, LexingError>(v@),
        Err(e) => m == Err::<Seq<Token>, LexingError>(e),
    }
}

proof fn lemma_depth_bound(s: Seq<char>)
    ensures
        -s.len() <= depth_after(s) <= s.len(),
    decreases s.len(),
{
    if s.len() > 0 {
        lemma_depth_bound(s.drop_last());
    }
}

proof fn lemma_link_err_stays(raw: Seq<RawToken>, k: nat, n: nat)
    requires
        k <= n,
        link_prefix(raw, k) is Err,
    ensures
        link_prefix(raw, n) == link_prefix(raw, k),
    decreases n - k,
{
    if k < n {
        lemma_link_err_stays(raw, k, (n - 1) as nat);
    }
}

/// Turns source text into a linked program, or reports the first bracket
/// without a partner.
pub fn tokenize(program: &str) -> (r: Result<Vec<Token>, LexingError>)
    requires
        program@.len() <= isize::MAX,
    ensures
        result_matches(r, tokens_of(program@)),
{
    let raw = to_raw_tokens(program);
    link_raw_tokens(raw.as_slice())
}

/// Classifies each character of `program`, dropping comments and tagging
/// brackets with their depth.
pub fn to_raw_tokens(program: &str) -> (r: Vec<RawToken>)
    requires
        program@.len() <= isize::MAX,
    ensures
        r@ == raw_tokens_of(program@),
{
    let n = program.unicode_len();
    let ghost s = program@;
    let mut out: Vec<RawToken> = Vec::new();
    let mut depth: isize = 0;
    let mut i: usize = 0;
    while i < n
        invariant
            n == s.len(),
            s == program@,
            s.len() <= isize::MAX,
            i <= n,
            out@ == raw_tokens_of(s.subrange(0, i as int)),
            depth as int == depth_after(s.subrange(0, i as int)),
        decreases n - i,
    {
        let ghost p = s.subrange(0, i as int);
        let c = program.get_char(i);
        proof {
            assert(s.subrange(0, i + 1).drop_last() =~= p);
            lemma_depth_bound(p);
        }
        if c == '>' {
            out.push(RawToken::Idp(i));
        } else if c == '<' {
            out.push(RawToken::Ddp(i));
        } else if c == '+' {
            out.push(RawToken::Inc(i));
        } else if c == '-' {
            out.push(RawToken::Dec(i));
        } else if c == '.' {
            out.push(RawToken::Out(i));
        } else if c == ',' {
            out.push(RawToken::Acc(i));
        } else if c == '[' {
            out.push(RawToken::Jfw { pos: i, depth });
            depth = depth + 1;
        } else if c == ']' {
            depth = depth - 1;
            out.push(RawToken::Jbw { pos: i, depth });
        } else if c == '%' {
            out.push(RawToken::Sys(i));
        }
        i = i + 1;
    }
    proof {
        assert(s.subrange(0, n as int) =~= s);
    }
    out
}

fn search_close(raw_tokens: &[RawToken], from: usize, d: isize) -> (r: Option<usize>)
    ensures
        match r {
            Some(j) => find_close(raw_tokens@, from as int, d) == Some(j as int),
            None => find_close(raw_tokens@, from as int, d) is None,
        },
{
    let n = raw_tokens.len();
    let mut j: usize = from;
    if j > n {
        j = n;
    }
    while j < n
        invariant
            n == raw_tokens@.len(),
            j <= n,
            find_close(raw_tokens@, from as int, d) == find_close(raw_tokens@, j as int, d),
        decreases n - j,
    {
        if let RawToken::Jbw { depth, .. } = raw_tokens[j] {
            if depth == d {
                return Some(j);
            }
        }
        j = j + 1;
    }
    None
}

fn search_open(raw_tokens: &[RawToken], from: usize, d: isize) -> (r: Option<usize>)
    requires
        from < raw_tokens@.len(),
    ensures
        match r {
            Some(j) => find_open(raw_tokens@, from as int, d) == Some(j as int),
            None => find_open(raw_tokens@, from as int, d) is None,
        },
{
    let n = raw_tokens.len();
    let mut j: usize = from + 1;
    while j > 0
        invariant
            j <= from + 1,
            from < raw_tokens@.len(),
            find_open(raw_tokens@, from as int, d) == find_open(raw_tokens@, j - 1, d),
        decreases j,
    {
        if let RawToken::Jfw { depth, .. } = raw_tokens[j - 1] {
            if depth == d {
                return Some(j - 1);
            }
        }
        j = j - 1;
    }
    None
}

/// Resolves each bracket to the index of its partner: the nearest bracket of
/// the other kind with the same depth, forward for `[` and backward for `]`.
pub fn link_raw_tokens(raw_tokens: &[RawToken]) -> (r: Result<Vec<Token>, LexingError>)
    ensures
        result_matches(r, link_all(raw_tokens@)),
{
    let n = raw_tokens.len();
    let ghost raw = raw_tokens@;
    let mut out: Vec<Token> = Vec::new();
    let mut i: usize = 0;
    while i < n
        invariant
            n == raw.len(),
            raw == raw_tokens@,
            i <= n,
            link_prefix(raw, i as nat) == Ok::<Seq<Token>, LexingError>(out@),
        decreases n - i,
    {
        let t = match raw_tokens[i] {
            RawToken::Idp(_) => Ok(Token::Idp),
            RawToken::Ddp(_) => Ok(Token::Ddp),
            RawToken::Inc(_) => Ok(Token::Inc),
            RawToken::Dec(_) => Ok(Token::Dec),
            RawToken::Out(_) => Ok(Token::Out),
            RawToken::Acc(_) => Ok(Token::Acc),
            RawToken::Jfw { pos, depth } => match search_close(raw_tokens, i, depth) {
                Some(j) => Ok(Token::Jfw { instruction_ref: j }),
                None => Err(LexingError::MissingClosingBracket { pos }),
            },
            RawToken::Jbw { pos, depth } => match search_open(raw_tokens, i, depth) {
                Some(j) => Ok(Token::Jbw { instruction_ref: j }),
                None => Err(LexingError::MissingOpeningBracket { pos }),
            },
            RawToken::Sys(_) => Ok(Token::Sys),
        };
        assert(t == link_one(raw, i as int));
        match t {
            Ok(tok) => {
                out.push(tok);
            },
            Err(e) => {
                proof {
                    lemma_link_err_stays(raw, (i + 1) as nat, n as nat);
                }
                return Err(e);
            },
        }
        i = i + 1;
    }
    Ok(out)
}

// Bracket pairing.

/// The depth tag of a bracket.
pub open spec fn bracket_depth(t: RawToken) -> int {
    match t {
        RawToken::Jfw { depth, .. } => depth as int,
        RawToken::Jbw { depth, .. } => depth as int,
        _ => 0,
    }
}

pub open spec fn delta(t: RawToken) -> int {
    match t {
        RawToken::Jfw { .. } => 1,
        RawToken::Jbw { .. } => -1,
        _ => 0,
    }
}

/// Opening minus closing brackets among the first `k` raw tokens.
pub open spec fn dep(raw: Seq<RawToken>, k: int) -> int
    decreases k,
{
    if k <= 0 {
        0
    } else {
        dep(raw, k - 1) + delta(raw[k - 1])
    }
}

/// Each bracket's tag is the depth before an opening bracket, or after a
/// closing one.
pub open spec fn tags_consistent(raw: Seq<RawToken>) -> bool {
    forall|k: int|
        0 <= k < raw.len() ==> match #[trigger] raw[k] {
            RawToken::Jfw { depth, .. } => depth == dep(raw, k),
            RawToken::Jbw { depth, .. } => depth == dep(raw, k) - 1,
            _ => true,
        }
}

proof fn lemma_dep_prefix(a: Seq<RawToken>, b: Seq<RawToken>, k: int)
    requires
        0 <= k <= a.len() <= b.len(),
        a == b.subrange(0, a.len() as int),
    ensures
        dep(a, k) == dep(b, k),
    decreases k,
{
    if k > 0 {
        lemma_dep_prefix(a, b, k - 1);
        assert(a[k - 1] == b[k - 1]);
    }
}

proof fn lemma_raw_consistent(s: Seq<char>)
    requires
        s.len() <= isize::MAX,
    ensures
        tags_consistent(raw_tokens_of(s)),
        dep(raw_tokens_of(s), raw_tokens_of(s).len() as int) == depth_after(s),
        raw_tokens_of(s).len() <= s.len(),
    decreases s.len(),
{
    if s.len() > 0 {
        let p = s.drop_last();
        lemma_raw_consistent(p);
        lemma_depth_bound(p);
        let rp = raw_tokens_of(p);
        let raw = raw_tokens_of(s);
        if let Some(t) = classify(s.last(), p.len() as int, depth_after(p)) {
            assert(raw == rp.push(t));
            assert(rp == raw.subrange(0, rp.len() as int));
            assert forall|k: int| 0 <= k <= rp.len() implies dep(rp, k) == dep(raw, k) by {
                lemma_dep_prefix(rp, raw, k);
            }
            assert forall|k: int| 0 <= k < raw.len() implies match #[trigger] raw[k] {
                RawToken::Jfw { depth, .. } => depth == dep(raw, k),
                RawToken::Jbw { depth, .. } => depth == dep(raw, k) - 1,
                _ => true,
            } by {
                if k < rp.len() {
                    assert(raw[k] == rp[k]);
                }
            }
        }
    }
}

proof fn lemma_find_close(raw: Seq<RawToken>, j: int, d: isize)
    requires
        0 <= j,
    ensures
        match find_close(raw, j, d) {
            Some(m) => j <= m < raw.len() && is_close_at(raw, m, d) && forall|k: int|
                j <= k < m ==> !is_close_at(raw, k, d),
            None => forall|k: int| j <= k < raw.len() ==> !is_close_at(raw, k, d),
        },
    decreases raw.len() - j,
{
    if j < raw.len() && !is_close_at(raw, j, d) {
        lemma_find_close(raw, j + 1, d);
    }
}

proof fn lemma_find_open(raw: Seq<RawToken>, j: int, d: isize)
    requires
        j < raw.len(),
    ensures
        match find_open(raw, j, d) {
            Some(m) => 0 <= m <= j && is_open_at(raw, m, d) && forall|k: int|
                m < k <= j ==> !is_open_at(raw, k, d),
            None => forall|k: int| 0 <= k <= j ==> !is_open_at(raw, k, d),
        },
    decreases j + 1,
{
    if j >= 0 && !is_open_at(raw, j, d) {
        lemma_find_open(raw, j - 1, d);
    }
}

proof fn lemma_link_prefix_ok(raw: Seq<RawToken>, n: nat)
    requires
        link_prefix(raw, n) is Ok,
    ensures
        link_prefix(raw, n)->Ok_0.len() == n,
        forall|k: int|
            0 <= k < n ==> link_one(raw, k) == Ok::<Token, LexingError>(
                #[trigger] link_prefix(raw, n)->Ok_0[k],
            ),
    decreases n,
{
    if n > 0 {
        lemma_link_prefix_ok(raw, (n - 1) as nat);
        let prev = link_prefix(raw, (n - 1) as nat)->Ok_0;
        let ts = link_prefix(raw, n)->Ok_0;
        assert forall|k: int| 0 <= k < n implies link_one(raw, k) == Ok::<Token, LexingError>(
            #[trigger] ts[k],
        ) by {
            if k < n - 1 {
                assert(ts[k] == prev[k]);
            }
        }
    }
}

proof fn lemma_depth_above_forward(raw: Seq<RawToken>, i: int, j: int, k: int, d: isize)
    requires
        tags_consistent(raw),
        0 <= i < k <= j <= raw.len(),
        raw[i] matches RawToken::Jfw { depth, .. } && depth == d,
        forall|m: int| i <= m < j ==> !is_close_at(raw, m, d),
    ensures
        dep(raw, k) >= d + 1,
    decreases k - i,
{
    assert(raw[i] == raw[i]);
    if k > i + 1 {
        lemma_depth_above_forward(raw, i, j, k - 1, d);
        assert(raw[k - 1] == raw[k - 1]);
        assert(!is_close_at(raw, k - 1, d));
    }
}

proof fn lemma_depth_above_backward(raw: Seq<RawToken>, i: int, j: int, k: int, d: isize)
    requires
        tags_consistent(raw),
        0 <= i < k <= j < raw.len(),
        raw[j] matches RawToken::Jbw { depth, .. } && depth == d,
        forall|m: int| i < m <= j ==> !is_open_at(raw, m, d),
    ensures
        dep(raw, k) >= d + 1,
    decreases j - k,
{
    assert(raw[j] == raw[j]);
    if k < j {
        lemma_depth_above_backward(raw, i, j, k + 1, d);
        assert(raw[k] == raw[k]);
        assert(!is_open_at(raw, k, d));
    }
}

/// In a raw sequence with consistent tags, the forward partner of an opening
/// bracket and the backward partner of a closing bracket are each other.
proof fn lemma_partners(raw: Seq<RawToken>)
    requires
        tags_consistent(raw),
    ensures
        forall|i: int, d: isize|
            0 <= i < raw.len() && is_open_at(raw, i, d) && #[trigger] find_close(raw, i, d) is Some
                ==> find_open(raw, find_close(raw, i, d)->Some_0, d) == Some(i),
        forall|j: int, d: isize|
            0 <= j < raw.len() && is_close_at(raw, j, d) && #[trigger] find_open(raw, j, d) is Some
                ==> find_close(raw, find_open(raw, j, d)->Some_0, d) == Some(j),
{
    assert forall|i: int, d: isize|
        0 <= i < raw.len() && is_open_at(raw, i, d) && #[trigger] find_close(raw, i, d) is Some
            implies find_open(raw, find_close(raw, i, d)->Some_0, d) == Some(i) by {
        lemma_find_close(raw, i, d);
        let j = find_close(raw, i, d)->Some_0;
        assert(raw[i] == raw[i]);
        assert forall|m: int| i < m <= j implies !is_open_at(raw, m, d) by {
            if m < j {
                lemma_depth_above_forward(raw, i, j, m, d);
                assert(raw[m] == raw[m]);
            }
        }
        lemma_find_open(raw, j, d);
    }
    assert forall|j: int, d: isize|
        0 <= j < raw.len() && is_close_at(raw, j, d) && #[trigger] find_open(raw, j, d) is Some
            implies find_close(raw, find_open(raw, j, d)->Some_0, d) == Some(j) by {
        lemma_find_open(raw, j, d);
        let i = find_open(raw, j, d)->Some_0;
        assert(raw[j] == raw[j]);
        assert forall|m: int| i <= m < j implies !is_close_at(raw, m, d) by {
            if i < m {
                lemma_depth_above_backward(raw, i, j, m + 1, d);
                assert(raw[m] == raw[m]);
            }
        }
        lemma_find_close(raw, i, d);
    }
}

/// Brackets pair up in every program that tokenizing yields: each bracket's
/// target is a bracket of the other kind with the same depth tag, whose own
/// target is the first bracket; an opening bracket's partner lies after it.
pub proof fn lemma_brackets_pair(s: Seq<char>)
    requires
        s.len() <= isize::MAX,
        tokens_of(s) is Ok,
    ensures
        ({
            let ts = tokens_of(s)->Ok_0;
            let raw = raw_tokens_of(s);
            &&& ts.len() == raw.len()
            &&& forall|i: int|
                0 <= i < ts.len() ==> (raw[i] is Jfw <==> ts[i] is Jfw) && (raw[i] is Jbw
                    <==> ts[i] is Jbw)
            &&& forall|i: int|
                0 <= i < ts.len() ==> match #[trigger] ts[i] {
                    Token::Jfw { instruction_ref: t } => i < t < ts.len() && ts[t as int]
                        == Token::Jbw { instruction_ref: i as usize } && bracket_depth(raw[i])
                        == bracket_depth(raw[t as int]),
                    Token::Jbw { instruction_ref: t } => t < i && ts[t as int] == Token::Jfw {
                        instruction_ref: i as usize,
                    } && bracket_depth(raw[i]) == bracket_depth(raw[t as int]),
                    _ => true,
                }
        }),
{
    let raw = raw_tokens_of(s);
    let ts = tokens_of(s)->Ok_0;
    lemma_raw_consistent(s);
    lemma_link_prefix_ok(raw, raw.len());
    lemma_partners(raw);
    assert forall|i: int| 0 <= i < ts.len() implies (raw[i] is Jfw <==> ts[i] is Jfw) && (raw[i] is Jbw
        <==> ts[i] is Jbw) by {
        assert(link_one(raw, i) == Ok::<Token, LexingError>(ts[i]));
    }
    assert forall|i: int| 0 <= i < ts.len() implies match #[trigger] ts[i] {
        Token::Jfw { instruction_ref: t } => i < t < ts.len() && ts[t as int] == Token::Jbw {
            instruction_ref: i as usize,
        } && bracket_depth(raw[i]) == bracket_depth(raw[t as int]),
        Token::Jbw { instruction_ref: t } => t < i && ts[t as int] == Token::Jfw {
            instruction_ref: i as usize,
        } && bracket_depth(raw[i]) == bracket_depth(raw[t as int]),
        _ => true,
    } by {
        assert(link_one(raw, i) == Ok::<Token, LexingError>(ts[i]));
        match raw[i] {
            RawToken::Jfw { depth, .. } => {
                assert(is_open_at(raw, i, depth));
                lemma_find_close(raw, i, depth);
                let j = find_close(raw, i, depth)->Some_0;
                assert(link_one(raw, j) == Ok::<Token, LexingError>(ts[j]));
                assert(raw[i] is Jfw);
            },
            RawToken::Jbw { depth, .. } => {
                assert(is_close_at(raw, i, depth));
                lemma_find_open(raw, i, depth);
                let j = find_open(raw, i, depth)->Some_0;
                assert(link_one(raw, j) == Ok::<Token, LexingError>(ts[j]));
            },
            _ => {},
        }
    }
}

// Comments.

/// The significant characters of `s`, in order.
pub open spec fn commands(s: Seq<char>) -> Seq<char>
    decreases s.len(),
{
    if s.len() == 0 {
        seq![]
    } else if is_command(s.last()) {
        commands(s.drop_last()).push(s.last())
    } else {
        commands(s.drop_last())
    }
}

/// A raw token with its source offset set aside.
pub open spec fn shape(t: RawToken) -> RawToken {
    match t {
        RawToken::Idp(_) => RawToken::Idp(0),
        RawToken::Ddp(_) => RawToken::Ddp(0),
        RawToken::Inc(_) => RawToken::Inc(0),
        RawToken::Dec(_) => RawToken::Dec(0),
        RawToken::Out(_) => RawToken::Out(0),
        RawToken::Acc(_) => RawToken::Acc(0),
        RawToken::Jfw { depth, .. } => RawToken::Jfw { pos: 0, depth },
        RawToken::Jbw { depth, .. } => RawToken::Jbw { pos: 0, depth },
        RawToken::Sys(_) => RawToken::Sys(0),
    }
}

pub open spec fn same_shape(a: Seq<RawToken>, b: Seq<RawToken>) -> bool {
    a.len() == b.len() && forall|k: int| 0 <= k < a.len() ==> shape(#[trigger] a[k]) == shape(b[k])
}

proof fn lemma_shape_of_commands(s: Seq<char>)
    ensures
        same_shape(raw_tokens_of(s), raw_tokens_of(commands(s))),
        depth_after(s) == depth_after(commands(s)),
    decreases s.len(),
{
    if s.len() > 0 {
        let p = s.drop_last();
        let c = s.last();
        lemma_shape_of_commands(p);
        let cp = commands(p);
        let rs = raw_tokens_of(s);
        let rc = raw_tokens_of(commands(s));
        if is_command(c) {
            let cs = commands(s);
            assert(cs.drop_last() =~= cp);
            assert(cs.last() == c);
            let t1 = classify(c, p.len() as int, depth_after(p))->Some_0;
            let t2 = classify(c, cp.len() as int, depth_after(cp))->Some_0;
            assert(shape(t1) == shape(t2));
            assert(rs == raw_tokens_of(p).push(t1));
            assert(rc == raw_tokens_of(cp).push(t2));
            assert forall|k: int| 0 <= k < rs.len() implies shape(#[trigger] rs[k]) == shape(rc[k]) by {
                if k < rs.len() - 1 {
                    assert(rs[k] == raw_tokens_of(p)[k]);
                    assert(rc[k] == raw_tokens_of(cp)[k]);
                }
            }
        }
    }
}

proof fn lemma_shape_search(a: Seq<RawToken>, b: Seq<RawToken>)
    requires
        same_shape(a, b),
    ensures
        forall|j: int, d: isize| #[trigger] find_close(a, j, d) == find_close(b, j, d),
        forall|j: int, d: isize| #[trigger] find_open(a, j, d) == find_open(b, j, d),
{
    assert forall|j: int, d: isize| #[trigger] find_close(a, j, d) == find_close(b, j, d) by {
        lemma_shape_close(a, b, j, d);
    }
    assert forall|j: int, d: isize| #[trigger] find_open(a, j, d) == find_open(b, j, d) by {
        lemma_shape_open(a, b, j, d);
    }
}

proof fn lemma_shape_close(a: Seq<RawToken>, b: Seq<RawToken>, j: int, d: isize)
    requires
        same_shape(a, b),
    ensures
        find_close(a, j, d) == find_close(b, j, d),
    decreases a.len() - j,
{
    if j < a.len() {
        if 0 <= j {
            assert(shape(a[j]) == shape(b[j]));
        }
        lemma_shape_close(a, b, j + 1, d);
    }
}

proof fn lemma_shape_open(a: Seq<RawToken>, b: Seq<RawToken>, j: int, d: isize)
    requires
        same_shape(a, b),
    ensures
        find_open(a, j, d) == find_open(b, j, d),
    decreases j + 1,
{
    if j >= 0 {
        if j < a.len() {
            assert(shape(a[j]) == shape(b[j]));
        }
        lemma_shape_open(a, b, j - 1, d);
    }
}

proof fn lemma_shape_link(a: Seq<RawToken>, b: Seq<RawToken>, n: nat)
    requires
        same_shape(a, b),
        n <= a.len(),
    ensures
        link_prefix(a, n) is Ok <==> link_prefix(b, n) is Ok,
        link_prefix(a, n) is Ok ==> link_prefix(a, n) == link_prefix(b, n),
    decreases n,
{
    if n > 0 {
        lemma_shape_link(a, b, (n - 1) as nat);
        lemma_shape_search(a, b);
        let k = n - 1;
        assert(shape(a[k]) == shape(b[k]));
        assert(link_one(a, k) is Ok <==> link_one(b, k) is Ok);
        assert(link_one(a, k) is Ok ==> link_one(a, k) == link_one(b, k));
    }
}

/// Characters other than the nine symbols are comments: two sources with
/// the same symbols in the same order either both fail to tokenize or give
/// the same program.
pub proof fn lemma_comments_ignored(s1: Seq<char>, s2: Seq<char>)
    requires
        commands(s1) == commands(s2),
    ensures
        tokens_of(s1) is Ok <==> tokens_of(s2) is Ok,
        tokens_of(s1) is Ok ==> tokens_of(s1) == tokens_of(s2),
{
    let r1 = raw_tokens_of(s1);
    let r2 = raw_tokens_of(s2);
    let rc = raw_tokens_of(commands(s1));
    lemma_shape_of_commands(s1);
    lemma_shape_of_commands(s2);
    assert(same_shape(r1, r2)) by {
        assert forall|k: int| 0 <= k < r1.len() implies shape(#[trigger] r1[k]) == shape(r2[k]) by {
            assert(shape(r1[k]) == shape(rc[k]));
            assert(shape(r2[k]) == shape(rc[k]));
        }
    }
    lemma_shape_link(r1, r2, r1.len());
}

} // verus!
