//! Decoder for the textual, nested key/value configuration format that
//! names the active recording root.
//!
//! The format is a sequence of quoted strings and braces: a section is
//! `"Key" { ... }`, a plain entry is `"Key" "Value"`, whitespace
//! separates tokens, and a quote always ends a string (escape sequences
//! are not interpreted).  The decoder walks the token stream and
//! extracts the value at the fixed key path
//! `GameRecording.BackgroundRecordPath`; it validates only the structure
//! it traverses.

use vstd::prelude::*;
use crate::errors::ConfigError;
use crate::strutil::str_eq;

verus! {

/// One token of the configuration text.
pub enum Token {
    Open,
    Close,
    Text(String),
}

/// Spec-level token.
pub enum STok {
    Open,
    Close,
    Text(Seq<char>),
}

impl View for Token {
    type V = STok;

    open spec fn view(&self) -> STok {
        match self {
            Token::Open => STok::Open,
            Token::Close => STok::Close,
            Token::Text(s) => STok::Text(s@),
        }
    }
}

/// Views of a token vector.
pub open spec fn views(toks: Seq<Token>) -> Seq<STok> {
    toks.map_values(|t: Token| t@)
}

/// Whitespace separating tokens.
pub open spec fn is_ws(c: char) -> bool {
    c == ' ' || c == '\t' || c == '\n' || c == '\r'
}

/// Index of the first `"` at or after `from`.
pub open spec fn first_quote(s: Seq<char>, from: int) -> Option<int>
    decreases s.len() - from when 0 <= from <= s.len()
{
    if from >= s.len() {
        None
    } else if s[from] == '"' {
        Some(from)
    } else {
        first_quote(s, from + 1)
    }
}

/// Prepends a token to a tokenization result.
pub open spec fn opt_prepend(t: STok, r: Option<Seq<STok>>) -> Option<Seq<STok>> {
    match r {
        Some(ts) => Some(seq![t] + ts),
        None => None,
    }
}

/// The token stream of a configuration text; `None` when a character
/// outside the format occurs or a string is unterminated.
pub open spec fn spec_tokenize(s: Seq<char>) -> Option<Seq<STok>>
    decreases s.len(),
{
    if s.len() == 0 {
        Some(Seq::empty())
    } else if is_ws(s[0]) {
        spec_tokenize(s.skip(1))
    } else if s[0] == '{' {
        opt_prepend(STok::Open, spec_tokenize(s.skip(1)))
    } else if s[0] == '}' {
        opt_prepend(STok::Close, spec_tokenize(s.skip(1)))
    } else if s[0] == '"' {
        match first_quote(s, 1) {
            Some(k) => {
                if 1 <= k < s.len() {
                    opt_prepend(STok::Text(s.subrange(1, k)), spec_tokenize(s.skip(k + 1)))
                } else {
                    None
                }
            },
            None => None,
        }
    } else {
        None
    }
}

proof fn lemma_first_quote_at(s: Seq<char>, from: int, k: int)
    requires
        0 <= from <= k < s.len(),
        s[k] == '"',
        forall|m: int| from <= m < k ==> s[m] != '"',
    ensures
        first_quote(s, from) == Some(k),
    decreases k - from,
{
    if from < k {
        lemma_first_quote_at(s, from + 1, k);
    }
}

proof fn lemma_first_quote_absent(s: Seq<char>, from: int)
    requires
        0 <= from <= s.len(),
        forall|m: int| from <= m < s.len() ==> s[m] != '"',
    ensures
        first_quote(s, from) is None,
    decreases s.len() - from,
{
    if from < s.len() {
        lemma_first_quote_absent(s, from + 1);
    }
}

/// Appends already-produced tokens in front of a tokenization result.
pub open spec fn opt_concat(pre: Seq<STok>, r: Option<Seq<STok>>) -> Option<Seq<STok>> {
    match r {
        Some(ts) => Some(pre + ts),
        None => None,
    }
}

/// Splits a configuration text into tokens; `Err` exactly when the text
/// is not tokenizable.
pub fn tokenize(text: &str) -> (r: Result<Vec<Token>, ConfigError>)
    ensures
        match r {
            Ok(toks) => spec_tokenize(text@) == Some(views(toks@)),
            Err(e) => e == ConfigError::ConfigParse && spec_tokenize(text@) is None,
        },
{
    let n = text.unicode_len();
    let mut toks: Vec<Token> = Vec::new();
    let mut i: usize = 0;
    proof {
        assert(text@.skip(0) =~= text@);
        assert(views(toks@) =~= Seq::<STok>::empty());
    }
    while i < n
        invariant
            n == text@.len(),
            i <= n,
            spec_tokenize(text@) == opt_concat(views(toks@), spec_tokenize(text@.skip(i as int))),
        decreases n - i,
    {
        let ghost rem = text@.skip(i as int);
        let c = text.get_char(i);
        proof {
            assert(rem[0] == text@[i as int]);
            assert(rem.skip(1) =~= text@.skip(i + 1));
        }
        if c == ' ' || c == '\t' || c == '\n' || c == '\r' {
            i += 1;
        } else if c == '{' {
            let ghost pre = views(toks@);
            toks.push(Token::Open);
            proof {
                assert(views(toks@) =~= pre.push(STok::Open));
                if spec_tokenize(text@.skip(i + 1)) is Some {
                    let ts = spec_tokenize(text@.skip(i + 1))->0;
                    assert(pre.push(STok::Open) + ts =~= pre + (seq![STok::Open] + ts));
                }
            }
            i += 1;
        } else if c == '}' {
            let ghost pre = views(toks@);
            toks.push(Token::Close);
            proof {
                assert(views(toks@) =~= pre.push(STok::Close));
                if spec_tokenize(text@.skip(i + 1)) is Some {
                    let ts = spec_tokenize(text@.skip(i + 1))->0;
                    assert(pre.push(STok::Close) + ts =~= pre + (seq![STok::Close] + ts));
                }
            }
            i += 1;
        } else if c == '"' {
            let mut j: usize = i + 1;
            let mut closed = false;
            while !closed && j < n
                invariant
                    n == text@.len(),
                    i + 1 <= j <= n,
                    forall|m: int| i < m < j ==> text@[m] != '"',
                    closed ==> j < n && text@[j as int] == '"',
                decreases n - j + (if closed { 0int } else { 1int }),
            {
                if text.get_char(j) == '"' {
                    closed = true;
                } else {
                    j += 1;
                }
            }
            if !closed {
                proof {
                    lemma_first_quote_absent(rem, 1);
                }
                return Err(ConfigError::ConfigParse);
            }
            let content = text.substring_char(i + 1, j);
            let ghost pre = views(toks@);
            toks.push(Token::Text(content.to_owned()));
            proof {
                assert(rem[j - i] == text@[j as int]);
                assert(forall|m: int| 1 <= m < j - i ==> rem[m] == text@[i + m]);
                lemma_first_quote_at(rem, 1, j - i);
                assert(rem.subrange(1, j - i) =~= text@.subrange(i + 1, j as int));
                assert(rem.skip(j - i + 1) =~= text@.skip(j + 1));
                assert(views(toks@) =~= pre.push(STok::Text(content@)));
                if spec_tokenize(text@.skip(j + 1)) is Some {
                    let ts = spec_tokenize(text@.skip(j + 1))->0;
                    assert(pre.push(STok::Text(content@)) + ts =~= pre + (seq![
                        STok::Text(content@),
                    ] + ts));
                }
            }
            i = j + 1;
        } else {
            return Err(ConfigError::ConfigParse);
        }
    }
    proof {
        assert(text@.skip(n as int) =~= Seq::<char>::empty());
        assert(views(toks@) + Seq::<STok>::empty() =~= views(toks@));
    }
    Ok(toks)
}

/// Index just after the `}` that closes `depth + 1` pending sections,
/// scanning from `i`.
pub open spec fn spec_skip_section(toks: Seq<STok>, i: int, depth: nat) -> Option<int>
    decreases toks.len() - i when 0 <= i <= toks.len()
{
    if i >= toks.len() {
        None
    } else {
        match toks[i] {
            STok::Close => {
                if depth == 0 {
                    Some(i + 1)
                } else {
                    spec_skip_section(toks, i + 1, (depth - 1) as nat)
                }
            },
            STok::Open => spec_skip_section(toks, i + 1, depth + 1),
            STok::Text(_) => spec_skip_section(toks, i + 1, depth),
        }
    }
}

/// Index of the value token of the first entry with key `key` among the
/// entries of the current section, scanning from `i`; `None` when the
/// section closes, the stream ends, or the entries are malformed first.
pub open spec fn spec_find_key(toks: Seq<STok>, i: int, key: Seq<char>) -> Option<int>
    decreases toks.len() - i when 0 <= i <= toks.len()
{
    if i >= toks.len() {
        None
    } else {
        match toks[i] {
            STok::Close => None,
            STok::Open => None,
            STok::Text(k) => {
                if i + 1 >= toks.len() {
                    None
                } else if k == key {
                    Some(i + 1)
                } else {
                    match toks[i + 1] {
                        STok::Text(_) => spec_find_key(toks, i + 2, key),
                        STok::Open => match spec_skip_section(toks, i + 2, 0) {
                            Some(j) => {
                                if i + 1 < j <= toks.len() {
                                    spec_find_key(toks, j, key)
                                } else {
                                    None
                                }
                            },
                            None => None,
                        },
                        STok::Close => None,
                    }
                }
            },
        }
    }
}

/// Executable mirror of `spec_skip_section`.
fn skip_section(toks: &Vec<Token>, i: usize, depth: usize) -> (r: Option<usize>)
    requires
        depth <= i <= toks@.len(),
    ensures
        match r {
            Some(j) => spec_skip_section(views(toks@), i as int, depth as nat)
                == Some(j as int) && i < j <= toks@.len(),
            None => spec_skip_section(views(toks@), i as int, depth as nat) is None,
        },
    decreases toks@.len() - i,
{
    if i >= toks.len() {
        return None;
    }
    proof {
        assert(views(toks@)[i as int] == toks@[i as int]@);
    }
    match &toks[i] {
        Token::Close => {
            if depth == 0 {
                Some(i + 1)
            } else {
                skip_section(toks, i + 1, depth - 1)
            }
        },
        Token::Open => skip_section(toks, i + 1, depth + 1),
        Token::Text(_) => skip_section(toks, i + 1, depth),
    }
}

/// Executable mirror of `spec_find_key`.
fn find_key(toks: &Vec<Token>, i: usize, key: &str) -> (r: Option<usize>)
    requires
        i <= toks@.len(),
    ensures
        match r {
            Some(j) => spec_find_key(views(toks@), i as int, key@) == Some(j as int)
                && i < j < toks@.len(),
            None => spec_find_key(views(toks@), i as int, key@) is None,
        },
    decreases toks@.len() - i,
{
    if i >= toks.len() {
        return None;
    }
    proof {
        assert(views(toks@)[i as int] == toks@[i as int]@);
    }
    match &toks[i] {
        Token::Close => None,
        Token::Open => None,
        Token::Text(k) => {
            if i + 1 >= toks.len() {
                return None;
            }
            if str_eq(k.as_str(), key) {
                return Some(i + 1);
            }
            proof {
                assert(views(toks@)[i + 1] == toks@[i + 1]@);
            }
            match &toks[i + 1] {
                Token::Text(_) => find_key(toks, i + 2, key),
                Token::Open => match skip_section(toks, i + 2, 0) {
                    Some(j) => find_key(toks, j, key),
                    None => None,
                },
                Token::Close => None,
            }
        },
    }
}

/// The recording root a token stream names: the value at
/// `GameRecording.BackgroundRecordPath` inside the root section.
pub open spec fn spec_extract(toks: Seq<STok>) -> Option<Seq<char>> {
    if toks.len() < 2 || !(toks[0] is Text) || !(toks[1] is Open) {
        None
    } else {
        match spec_find_key(toks, 2, "GameRecording"@) {
            Some(gi) => {
                if toks[gi] is Open {
                    match spec_find_key(toks, gi + 1, "BackgroundRecordPath"@) {
                        Some(bi) => match toks[bi] {
                            STok::Text(v) => Some(v),
                            _ => None,
                        },
                        None => None,
                    }
                } else {
                    None
                }
            },
            None => None,
        }
    }
}

/// The recording root a configuration text names, or `None` when the
/// text is malformed or the key path is missing.
pub open spec fn spec_background_record_path(s: Seq<char>) -> Option<Seq<char>> {
    match spec_tokenize(s) {
        Some(toks) => spec_extract(toks),
        None => None,
    }
}

/// Decodes the configuration text and extracts the recording root path
/// at `GameRecording.BackgroundRecordPath`; `ConfigParse` exactly when
/// the text is malformed or the key path is missing.
pub fn background_record_path(text: &str) -> (r: Result<String, ConfigError>)
    ensures
        match r {
            Ok(p) => spec_background_record_path(text@) == Some(p@),
            Err(e) => e == ConfigError::ConfigParse
                && spec_background_record_path(text@) is None,
        },
{
    let toks = match tokenize(text) {
        Ok(toks) => toks,
        Err(e) => {
            return Err(e);
        },
    };
    if toks.len() < 2 {
        return Err(ConfigError::ConfigParse);
    }
    proof {
        assert(views(toks@)[0] == toks@[0]@);
        assert(views(toks@)[1] == toks@[1]@);
    }
    let ok_head = match (&toks[0], &toks[1]) {
        (Token::Text(_), Token::Open) => true,
        _ => false,
    };
    if !ok_head {
        return Err(ConfigError::ConfigParse);
    }
    let gi = match find_key(&toks, 2, "GameRecording") {
        Some(gi) => gi,
        None => {
            return Err(ConfigError::ConfigParse);
        },
    };
    proof {
        assert(views(toks@)[gi as int] == toks@[gi as int]@);
    }
    let gi_open = match &toks[gi] {
        Token::Open => true,
        _ => false,
    };
    if !gi_open {
        return Err(ConfigError::ConfigParse);
    }
    let bi = match find_key(&toks, gi + 1, "BackgroundRecordPath") {
        Some(bi) => bi,
        None => {
            return Err(ConfigError::ConfigParse);
        },
    };
    proof {
        assert(views(toks@)[bi as int] == toks@[bi as int]@);
    }
    match &toks[bi] {
        Token::Text(v) => Ok(v.clone()),
        _ => Err(ConfigError::ConfigParse),
    }
}


/// A configuration value: a plain string or a nested section.
pub enum SVal {
    Txt(Seq<char>),
    Sect(Seq<SEntry>),
}

/// One key/value entry of a section.
pub struct SEntry {
    pub key: Seq<char>,
    pub val: SVal,
}

/// Tokens of one rendered value.
pub open spec fn render_val(v: SVal) -> Seq<STok>
    decreases v,
{
    match v {
        SVal::Txt(t) => seq![STok::Text(t)],
        SVal::Sect(es) => seq![STok::Open] + render_entries(es) + seq![STok::Close],
    }
}

/// Tokens of a rendered entry list.
pub open spec fn render_entries(es: Seq<SEntry>) -> Seq<STok>
    decreases es,
{
    if es.len() == 0 {
        Seq::empty()
    } else {
        seq![STok::Text(es[0].key)] + render_val(es[0].val) + render_entries(es.drop_first())
    }
}

/// No entry of the list carries this key.
pub open spec fn no_key(es: Seq<SEntry>, key: Seq<char>) -> bool {
    forall|n: int| 0 <= n < es.len() ==> (#[trigger] es[n].key) != key
}

/// `part` stands in `toks` beginning at `i`.
pub open spec fn holds_at(toks: Seq<STok>, i: int, part: Seq<STok>) -> bool {
    0 <= i && i + part.len() <= toks.len() && toks.subrange(i, i + part.len() as int) == part
}

proof fn lemma_holds_at_split(toks: Seq<STok>, i: int, a: Seq<STok>, b: Seq<STok>)
    requires
        holds_at(toks, i, a + b),
    ensures
        holds_at(toks, i, a),
        holds_at(toks, i + a.len(), b),
{
    let whole = toks.subrange(i, i + a.len() + b.len());
    assert(toks.subrange(i, i + a.len() as int) =~= whole.subrange(0, a.len() as int));
    assert(whole.subrange(0, a.len() as int) =~= a);
    assert(toks.subrange(i + a.len(), i + a.len() + b.len())
        =~= whole.subrange(a.len() as int, whole.len() as int));
    assert(whole.subrange(a.len() as int, whole.len() as int) =~= b);
}

proof fn lemma_holds_at_index(toks: Seq<STok>, i: int, t: STok)
    requires
        holds_at(toks, i, seq![t]),
    ensures
        0 <= i < toks.len() && toks[i] == t,
{
    assert(toks.subrange(i, i + 1)[0] == toks[i]);
}

proof fn lemma_render_val_len(v: SVal)
    ensures
        render_val(v).len() >= 1,
{
}

proof fn lemma_scan_val(toks: Seq<STok>, i: int, d: nat, v: SVal)
    requires
        holds_at(toks, i, render_val(v)),
    ensures
        spec_skip_section(toks, i, d) == spec_skip_section(toks, i + render_val(v).len(), d),
    decreases render_val(v).len(),
{
    match v {
        SVal::Txt(t) => {
            lemma_holds_at_index(toks, i, STok::Text(t));
        },
        SVal::Sect(es) => {
            let el = render_entries(es).len() as int;
            assert(render_val(v) =~= seq![STok::Open] + (render_entries(es) + seq![STok::Close]));
            lemma_holds_at_split(toks, i, seq![STok::Open], render_entries(es) + seq![STok::Close]);
            lemma_holds_at_index(toks, i, STok::Open);
            lemma_holds_at_split(toks, i + 1, render_entries(es), seq![STok::Close]);
            lemma_holds_at_index(toks, i + 1 + el, STok::Close);
            assert(render_entries(es).len() < render_val(v).len());
            lemma_scan_entries(toks, i + 1, d + 1, es);
        },
    }
}

proof fn lemma_scan_entries(toks: Seq<STok>, i: int, d: nat, es: Seq<SEntry>)
    requires
        holds_at(toks, i, render_entries(es)),
    ensures
        spec_skip_section(toks, i, d) == spec_skip_section(
            toks,
            i + render_entries(es).len(),
            d,
        ),
    decreases render_entries(es).len(),
{
    if es.len() > 0 {
        let vl = render_val(es[0].val).len() as int;
        let rest = render_entries(es.drop_first());
        assert(render_entries(es) =~= seq![STok::Text(es[0].key)] + (render_val(es[0].val)
            + rest));
        lemma_holds_at_split(toks, i, seq![STok::Text(es[0].key)], render_val(es[0].val) + rest);
        lemma_holds_at_index(toks, i, STok::Text(es[0].key));
        lemma_holds_at_split(toks, i + 1, render_val(es[0].val), rest);
        lemma_render_val_len(es[0].val);
        lemma_scan_val(toks, i + 1, d, es[0].val);
        lemma_scan_entries(toks, i + 1 + vl, d, es.drop_first());
    }
}

proof fn lemma_find_skips_entries(toks: Seq<STok>, i: int, key: Seq<char>, es: Seq<SEntry>)
    requires
        holds_at(toks, i, render_entries(es)),
        no_key(es, key),
        i + render_entries(es).len() < toks.len(),
    ensures
        spec_find_key(toks, i, key) == spec_find_key(toks, i + render_entries(es).len(), key),
    decreases render_entries(es).len(),
{
    if es.len() > 0 {
        let vl = render_val(es[0].val).len() as int;
        let rest = render_entries(es.drop_first());
        assert(render_entries(es) =~= seq![STok::Text(es[0].key)] + (render_val(es[0].val)
            + rest));
        lemma_holds_at_split(toks, i, seq![STok::Text(es[0].key)], render_val(es[0].val) + rest);
        lemma_holds_at_index(toks, i, STok::Text(es[0].key));
        lemma_holds_at_split(toks, i + 1, render_val(es[0].val), rest);
        lemma_render_val_len(es[0].val);
        assert(es[0].key != key);
        match es[0].val {
            SVal::Txt(t) => {
                lemma_holds_at_index(toks, i + 1, STok::Text(t));
                assert(spec_find_key(toks, i, key) == spec_find_key(toks, i + 2, key));
            },
            SVal::Sect(inner) => {
                let il = render_entries(inner).len() as int;
                assert(render_val(es[0].val) =~= seq![STok::Open] + (render_entries(inner)
                    + seq![STok::Close]));
                lemma_holds_at_split(
                    toks,
                    i + 1,
                    seq![STok::Open],
                    render_entries(inner) + seq![STok::Close],
                );
                lemma_holds_at_index(toks, i + 1, STok::Open);
                lemma_holds_at_split(toks, i + 2, render_entries(inner), seq![STok::Close]);
                lemma_holds_at_index(toks, i + 2 + il, STok::Close);
                lemma_scan_entries(toks, i + 2, 0, inner);
                assert(spec_skip_section(toks, i + 2, 0) == Some(i + 3 + il));
                assert(spec_find_key(toks, i, key) == spec_find_key(toks, i + 3 + il, key));
                assert(i + 3 + il == i + 1 + vl);
            },
        }
        lemma_find_skips_entries(toks, i + 1 + vl, key, es.drop_first());
    }
}

/// The token stream of a configuration document whose root section
/// holds, among arbitrary other entries, a `GameRecording` section that
/// holds, among arbitrary other entries, a `BackgroundRecordPath` value.
pub open spec fn config_tokens(
    rootkey: Seq<char>,
    pre: Seq<SEntry>,
    inner_pre: Seq<SEntry>,
    path: Seq<char>,
    inner_post: Seq<SEntry>,
    post: Seq<SEntry>,
) -> Seq<STok> {
    seq![STok::Text(rootkey), STok::Open] + render_entries(pre) + seq![
        STok::Text("GameRecording"@),
        STok::Open,
    ] + render_entries(inner_pre) + seq![
        STok::Text("BackgroundRecordPath"@),
        STok::Text(path),
    ] + render_entries(inner_post) + seq![STok::Close] + render_entries(post) + seq![STok::Close]
}

/// For every configuration token stream holding the key path
/// `GameRecording.BackgroundRecordPath`, the decoder recovers exactly
/// the configured path, whatever unrelated keys and nested sections
/// surround it — provided only that no earlier entry at the same level
/// reuses one of the two keys.
#[verifier::rlimit(100)]
pub proof fn lemma_path_recovered(
    rootkey: Seq<char>,
    pre: Seq<SEntry>,
    inner_pre: Seq<SEntry>,
    path: Seq<char>,
    inner_post: Seq<SEntry>,
    post: Seq<SEntry>,
)
    requires
        no_key(pre, "GameRecording"@),
        no_key(inner_pre, "BackgroundRecordPath"@),
    ensures
        spec_extract(config_tokens(rootkey, pre, inner_pre, path, inner_post, post))
            == Some(path),
{
    let toks = config_tokens(rootkey, pre, inner_pre, path, inner_post, post);
    let head = seq![STok::Text(rootkey), STok::Open];
    let mid = seq![STok::Text("GameRecording"@), STok::Open];
    let kv = seq![STok::Text("BackgroundRecordPath"@), STok::Text(path)];
    let a = render_entries(pre);
    let b = render_entries(inner_pre);
    let c = render_entries(inner_post);
    let e = render_entries(post);
    let tail = mid + b + kv + c + seq![STok::Close] + e + seq![STok::Close];
    assert(toks =~= head + (a + tail));
    assert(toks.subrange(0, toks.len() as int) =~= toks);
    lemma_holds_at_split(toks, 0, head, a + tail);
    assert(toks[0] == STok::Text(rootkey) && toks[1] == STok::Open) by {
        assert(toks.subrange(0, 2) == head);
        assert(toks.subrange(0, 2)[0] == toks[0]);
        assert(toks.subrange(0, 2)[1] == toks[1]);
    }
    lemma_holds_at_split(toks, 2, a, tail);
    let p1 = 2 + a.len() as int;
    assert(tail =~= mid + (b + (kv + (c + (seq![STok::Close] + (e + seq![STok::Close]))))));
    lemma_holds_at_split(toks, p1, mid, b + (kv + (c + (seq![STok::Close] + (e + seq![
        STok::Close,
    ])))));
    assert(mid =~= seq![STok::Text("GameRecording"@)] + seq![STok::Open]);
    lemma_holds_at_split(toks, p1, seq![STok::Text("GameRecording"@)], seq![STok::Open]);
    lemma_holds_at_index(toks, p1, STok::Text("GameRecording"@));
    lemma_holds_at_index(toks, p1 + 1, STok::Open);
    lemma_find_skips_entries(toks, 2, "GameRecording"@, pre);
    assert(spec_find_key(toks, p1, "GameRecording"@) == Some(p1 + 1));
    assert(spec_find_key(toks, 2, "GameRecording"@) == Some(p1 + 1));

    let p2 = p1 + 2 + b.len() as int;
    lemma_holds_at_split(toks, p1 + 2, b, kv + (c + (seq![STok::Close] + (e + seq![
        STok::Close,
    ]))));
    lemma_holds_at_split(toks, p2, kv, c + (seq![STok::Close] + (e + seq![STok::Close])));
    assert(kv =~= seq![STok::Text("BackgroundRecordPath"@)] + seq![STok::Text(path)]);
    lemma_holds_at_split(toks, p2, seq![STok::Text("BackgroundRecordPath"@)], seq![
        STok::Text(path),
    ]);
    lemma_holds_at_index(toks, p2, STok::Text("BackgroundRecordPath"@));
    lemma_holds_at_index(toks, p2 + 1, STok::Text(path));
    lemma_find_skips_entries(toks, p1 + 2, "BackgroundRecordPath"@, inner_pre);
    assert(spec_find_key(toks, p2, "BackgroundRecordPath"@) == Some(p2 + 1));
    assert(spec_find_key(toks, p1 + 2, "BackgroundRecordPath"@) == Some(p2 + 1));
}

/// The same recovery stated of configuration texts: any text that reads
/// as such a token stream decodes to exactly the configured path.
pub proof fn lemma_text_path_recovered(
    s: Seq<char>,
    rootkey: Seq<char>,
    pre: Seq<SEntry>,
    inner_pre: Seq<SEntry>,
    path: Seq<char>,
    inner_post: Seq<SEntry>,
    post: Seq<SEntry>,
)
    requires
        spec_tokenize(s) == Some(
            config_tokens(rootkey, pre, inner_pre, path, inner_post, post),
        ),
        no_key(pre, "GameRecording"@),
        no_key(inner_pre, "BackgroundRecordPath"@),
    ensures
        spec_background_record_path(s) == Some(path),
{
    lemma_path_recovered(rootkey, pre, inner_pre, path, inner_post, post);
}

} // verus!
