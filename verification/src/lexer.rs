//! The lexer: turns SQL text into a stream of symbols, handling
//! multi-word keywords by speculative lookahead.

use vstd::prelude::*;
use crate::symbol::{Symbol, Token, Group, sym, symbols_get, check_multi_keywords_front,
    spec_symbols_get, spec_multi_keywords_front};
use crate::strutil::ascii_chars_to_string;
use crate::strutil::str_chars;

verus! {

pub struct Scanner {
    message: String,
}

#[derive(Debug, Clone, Copy, PartialEq, Eq, Structural)]
pub enum LexerError {
    NotAllowedChar,
}

impl LexerError {
    /// The message shown to clients for this error.
    pub fn message(&self) -> (r: String)
        ensures
            r@ == "please use ascii character."@,
    {
        "please use ascii character.".to_owned()
    }
}

/// Characters that may appear in a word: identifier characters plus
/// the comparison-operator characters, which the keyword table then
/// resolves to operator symbols.
pub open spec fn is_ident_char(c: char) -> bool {
    ('0' <= c && c <= '9') || ('a' <= c && c <= 'z') || ('A' <= c && c <= 'Z') || c == '\''
        || c == '.' || c == '"' || c == '=' || c == '<' || c == '>' || c == '!'
}

/// The whitespace the scanner skips between words.
pub open spec fn is_space_char(c: char) -> bool {
    c == ' ' || c == '\t' || c == '\r' || c == '\n'
}

/// The whitespace trimmed from either end of the input.
pub open spec fn is_trim_char(c: char) -> bool {
    c == ' ' || c == '\t' || c == '\n' || c == '\r' || c == '\u{b}' || c == '\u{c}'
}

pub open spec fn is_delim_char(c: char) -> bool {
    c == '(' || c == ')' || c == ',' || c == ';'
}

pub open spec fn is_alpha_char(c: char) -> bool {
    ('a' <= c && c <= 'z') || ('A' <= c && c <= 'Z')
}

/// ASCII lowercasing of one character.
pub open spec fn lower_char(c: char) -> char {
    if c == 'A' { 'a' } else if c == 'B' { 'b' } else if c == 'C' { 'c' }
    else if c == 'D' { 'd' } else if c == 'E' { 'e' } else if c == 'F' { 'f' }
    else if c == 'G' { 'g' } else if c == 'H' { 'h' } else if c == 'I' { 'i' }
    else if c == 'J' { 'j' } else if c == 'K' { 'k' } else if c == 'L' { 'l' }
    else if c == 'M' { 'm' } else if c == 'N' { 'n' } else if c == 'O' { 'o' }
    else if c == 'P' { 'p' } else if c == 'Q' { 'q' } else if c == 'R' { 'r' }
    else if c == 'S' { 's' } else if c == 'T' { 't' } else if c == 'U' { 'u' }
    else if c == 'V' { 'v' } else if c == 'W' { 'w' } else if c == 'X' { 'x' }
    else if c == 'Y' { 'y' } else if c == 'Z' { 'z' } else { c }
}

pub open spec fn lower_text(s: Seq<char>) -> Seq<char> {
    Seq::new(s.len(), |i: int| lower_char(s[i]))
}

pub open spec fn trim_front(s: Seq<char>) -> Seq<char>
    decreases s.len(),
{
    if s.len() > 0 && is_trim_char(s[0]) {
        trim_front(s.skip(1))
    } else {
        s
    }
}

pub open spec fn trim_back(s: Seq<char>) -> Seq<char>
    decreases s.len(),
{
    if s.len() > 0 && is_trim_char(s.last()) {
        trim_back(s.drop_last())
    } else {
        s
    }
}

/// The input as the scanner sees it: lower-cased and trimmed.
pub open spec fn norm_text(s: Seq<char>) -> Seq<char> {
    trim_front(trim_back(lower_text(s)))
}

/// A symbol reduced to what the scanner promises about it.
pub open spec fn sym_model(s: Symbol) -> (Seq<char>, Token, Group) {
    (s.name@, s.token, s.group)
}

pub open spec fn syms_model(v: Seq<Symbol>) -> Seq<(Seq<char>, Token, Group)> {
    v.map(|i: int, s: Symbol| sym_model(s))
}

/// A word is a keyword if the table knows it, otherwise an identifier.
pub open spec fn word_sym(w: Seq<char>) -> (Seq<char>, Token, Group) {
    match spec_symbols_get(w) {
        Some((t, g)) => (w, t, g),
        None => (w, Token::Identifier, Group::Identifier),
    }
}

pub open spec fn delim_sym(c: char) -> (Seq<char>, Token, Group) {
    match Symbol::spec_match_delimiter(c) {
        Some((name, t)) => (name, t, Group::Delimiter),
        None => (Seq::empty(), Token::Identifier, Group::Identifier),
    }
}

/// The speculative lookahead for one multi-word-keyword candidate:
/// starting at `j`, collect whitespace-separated alphabetic words into
/// `test` until `need` more words were seen, a foreign character stops
/// the collection, or the input ends. Returns the collected text and
/// how many characters were consumed without breaking off.
pub open spec fn probe(
    t: Seq<char>,
    j: int,
    need: int,
    test: Seq<char>,
    last_letter: bool,
    parts: int,
    steps: int,
) -> (Seq<char>, int)
    decreases t.len() - j,
{
    if j < 0 || j >= t.len() {
        (test, steps)
    } else {
        let y = t[j];
        if is_alpha_char(y) {
            probe(t, j + 1, need, test.push(y), true, parts, steps + 1)
        } else if is_space_char(y) {
            if last_letter {
                if parts + 1 == need {
                    (test, steps)
                } else {
                    probe(t, j + 1, need, test.push(' '), false, parts + 1, steps + 1)
                }
            } else {
                probe(t, j + 1, need, test, false, parts, steps + 1)
            }
        } else {
            (test, steps)
        }
    }
}

/// Tries each candidate word count in order; the first whose collected
/// text is in the keyword table wins.
pub open spec fn try_multis(t: Seq<char>, i: int, w: Seq<char>, cands: Seq<u32>, ci: int) -> Option<
    (Seq<char>, int),
>
    decreases cands.len() - ci,
{
    if ci < 0 || ci >= cands.len() {
        None
    } else {
        let p = cands[ci] as int;
        let (test, steps) = probe(t, i + 1, p - 1, w + seq![' '], false, 0, 0);
        if spec_symbols_get(test) is Some {
            Some((test, steps))
        } else {
            try_multis(t, i, w, cands, ci + 1)
        }
    }
}

/// The scanner from a state: `l` is the start of the buffered word and
/// `i` the cursor. `None` is a lexical error.
pub open spec fn scan_rest(t: Seq<char>, l: int, i: int) -> Option<
    Seq<(Seq<char>, Token, Group)>,
>
    decreases t.len() - i,
{
    if i < 0 || l < 0 || l > i {
        None
    } else if i >= t.len() {
        if l < i {
            Some(seq![word_sym(t.subrange(l, i))])
        } else {
            Some(Seq::empty())
        }
    } else {
        let x = t[i];
        if is_ident_char(x) {
            scan_rest(t, l, i + 1)
        } else if is_space_char(x) || is_delim_char(x) {
            if l < i {
                let w = t.subrange(l, i);
                if !is_delim_char(x) && spec_multi_keywords_front(w) is Some {
                    match try_multis(t, i, w, spec_multi_keywords_front(w)->Some_0, 0) {
                        Some((test, steps)) => {
                            let k = if steps >= 0 { steps } else { 0 };
                            let ni = if i + 1 + k > t.len() { t.len() as int } else { i + 1 + k };
                            let (tk, g) = spec_symbols_get(test)->Some_0;
                            match scan_rest(t, ni, ni) {
                                Some(rest) => Some(seq![(test, tk, g)] + rest),
                                None => None,
                            }
                        },
                        None => {
                            match scan_rest(t, i + 1, i + 1) {
                                Some(rest) => Some(seq![word_sym(w)] + rest),
                                None => None,
                            }
                        },
                    }
                } else {
                    match scan_rest(t, i + 1, i + 1) {
                        Some(rest) => {
                            if is_delim_char(x) {
                                Some(seq![word_sym(w), delim_sym(x)] + rest)
                            } else {
                                Some(seq![word_sym(w)] + rest)
                            }
                        },
                        None => None,
                    }
                }
            } else {
                match scan_rest(t, i + 1, i + 1) {
                    Some(rest) => {
                        if is_delim_char(x) {
                            Some(seq![delim_sym(x)] + rest)
                        } else {
                            Some(rest)
                        }
                    },
                    None => None,
                }
            }
        } else if x == '*' {
            match scan_rest(t, i + 1, i + 1) {
                Some(rest) => Some(seq![("*"@, Token::Identifier, Group::Identifier)] + rest),
                None => None,
            }
        } else {
            None
        }
    }
}

/// What scanning a message yields: `None` is a lexical error, either a
/// non-ASCII character or one outside the accepted alphabet.
pub open spec fn spec_scan(m: Seq<char>) -> Option<Seq<(Seq<char>, Token, Group)>> {
    if !vstd::utf8::is_ascii_chars(m) {
        None
    } else {
        scan_rest(norm_text(m), 0, 0)
    }
}

fn exec_lower_char(c: char) -> (r: char)
    ensures
        r == lower_char(c),
{
    match c {
        'A' => 'a', 'B' => 'b', 'C' => 'c', 'D' => 'd', 'E' => 'e', 'F' => 'f',
        'G' => 'g', 'H' => 'h', 'I' => 'i', 'J' => 'j', 'K' => 'k', 'L' => 'l',
        'M' => 'm', 'N' => 'n', 'O' => 'o', 'P' => 'p', 'Q' => 'q', 'R' => 'r',
        'S' => 's', 'T' => 't', 'U' => 'u', 'V' => 'v', 'W' => 'w', 'X' => 'x',
        'Y' => 'y', 'Z' => 'z', _ => c,
    }
}

fn exec_is_trim_char(c: char) -> (r: bool)
    ensures
        r == is_trim_char(c),
{
    c == ' ' || c == '\t' || c == '\n' || c == '\r' || c == '\u{b}' || c == '\u{c}'
}

fn exec_is_ident_char(c: char) -> (r: bool)
    ensures
        r == is_ident_char(c),
{
    ('0' <= c && c <= '9') || ('a' <= c && c <= 'z') || ('A' <= c && c <= 'Z') || c == '\''
        || c == '.' || c == '"' || c == '=' || c == '<' || c == '>' || c == '!'
}

proof fn lemma_trim_front_at(s: Seq<char>, lo: int)
    requires
        0 <= lo <= s.len(),
        forall|j: int| 0 <= j < lo ==> is_trim_char(s[j]),
        lo < s.len() ==> !is_trim_char(s[lo]),
    ensures
        trim_front(s) == s.skip(lo),
    decreases s.len(),
{
    if s.len() > 0 && is_trim_char(s[0]) {
        assert(lo > 0 || s.len() == 0 || !is_trim_char(s[0]) || lo != 0);
        if lo == 0 {
            assert(!is_trim_char(s[0]));
        }
        lemma_trim_front_at(s.skip(1), lo - 1);
        assert(s.skip(1).skip(lo - 1) =~= s.skip(lo));
    } else {
        assert(lo == 0);
        assert(s.skip(0) =~= s);
    }
}

proof fn lemma_trim_back_at(s: Seq<char>, hi: int)
    requires
        0 <= hi <= s.len(),
        forall|j: int| hi <= j < s.len() ==> is_trim_char(s[j]),
        hi > 0 ==> !is_trim_char(s[hi - 1]),
    ensures
        trim_back(s) == s.take(hi),
    decreases s.len(),
{
    if s.len() > 0 && is_trim_char(s.last()) {
        assert(hi < s.len());
        lemma_trim_back_at(s.drop_last(), hi);
        assert(s.drop_last().take(hi) =~= s.take(hi));
    } else {
        assert(hi == s.len());
        assert(s.take(hi as int) =~= s);
    }
}

impl Scanner {
    pub closed spec fn message_view(&self) -> Seq<char> {
        self.message@
    }

    /// Stores the message to be scanned.
    pub fn new(message: &str) -> (r: Scanner)
        ensures
            r.message_view() == message@,
    {
        Scanner { message: message.to_owned() }
    }

    /// Scans the message into symbols, or rejects it at the first
    /// character the alphabet does not allow.
    #[verifier::loop_isolation(false)]
    pub fn scan_tokens(&mut self) -> (r: Result<Vec<Symbol>, LexerError>)
        ensures
            final(self).message_view() == old(self).message_view(),
            r is Ok <==> spec_scan(old(self).message_view()) is Some,
            r is Ok ==> syms_model(r->Ok_0@) == spec_scan(old(self).message_view())->Some_0,
    {
        let raw = str_chars(self.message.as_str());
        let n = raw.len();

        // Reject non-ASCII input outright.
        let mut i: usize = 0;
        while i < n
            invariant
                n == raw@.len(),
                i <= n,
                forall|j: int| 0 <= j < i ==> '\0' <= #[trigger] raw@[j] <= '\u{7f}',
            decreases n - i,
        {
            let c = raw[i];
            if c > '\u{7f}' {
                proof {
                    assert(!vstd::utf8::is_ascii_chars(raw@));
                }
                return Err(LexerError::NotAllowedChar);
            }
            proof {
                vstd::utf8::char_is_scalar(c);
                vstd::utf8::char_u32_cast(c, c as u32);
                assert(c as u32 >= 0);
                assert('\0' as u32 == 0);
                assert('\0' <= c);
            }
            i += 1;
        }
        proof {
            assert(vstd::utf8::is_ascii_chars(raw@));
        }

        // Lower-case.
        let mut low: Vec<char> = Vec::new();
        let mut i: usize = 0;
        while i < n
            invariant
                n == raw@.len(),
                i <= n,
                low@.len() == i,
                forall|j: int| 0 <= j < i ==> low@[j] == lower_char(raw@[j]),
            decreases n - i,
        {
            low.push(exec_lower_char(raw[i]));
            i += 1;
        }
        proof {
            assert(low@ =~= lower_text(raw@));
        }

        // Trim both ends.
        let mut hi: usize = n;
        while hi > 0 && exec_is_trim_char(low[hi - 1])
            invariant
                hi <= n,
                forall|j: int| hi <= j < n ==> is_trim_char(#[trigger] low@[j]),
            decreases hi,
        {
            hi -= 1;
        }
        let mut lo: usize = 0;
        while lo < hi && exec_is_trim_char(low[lo])
            invariant
                lo <= hi,
                forall|j: int| 0 <= j < lo ==> is_trim_char(#[trigger] low@[j]),
            decreases hi - lo,
        {
            lo += 1;
        }
        let mut t: Vec<char> = Vec::new();
        let mut i: usize = lo;
        while i < hi
            invariant
                lo <= i <= hi <= n,
                n == low@.len(),
                t@ =~= low@.subrange(lo as int, i as int),
            decreases hi - i,
        {
            t.push(low[i]);
            proof {
                assert(t@ =~= low@.subrange(lo as int, i + 1));
            }
            i += 1;
        }
        proof {
            lemma_trim_back_at(low@, hi as int);
            lemma_trim_front_at(low@.take(hi as int), lo as int);
            assert(low@.take(hi as int).skip(lo as int) =~= low@.subrange(lo as int, hi as int));
            assert(t@ == norm_text(raw@));
            assert forall|j: int| 0 <= j < t@.len() implies '\0' <= #[trigger] t@[j] <= '\u{7f}' by {
                assert(t@[j] == lower_char(raw@[lo + j]));
                assert('\0' <= raw@[lo + j] <= '\u{7f}');
            }
            assert(vstd::utf8::is_ascii_chars(t@));
        }

        self.scan_normalized(&t)
    }

    /// The scanner proper, over normalized ASCII text.
    #[verifier::loop_isolation(false)]
    #[verifier::rlimit(100)]
    fn scan_normalized(&self, t: &Vec<char>) -> (r: Result<Vec<Symbol>, LexerError>)
        requires
            vstd::utf8::is_ascii_chars(t@),
        ensures
            r is Ok <==> scan_rest(t@, 0, 0) is Some,
            r is Ok ==> syms_model(r->Ok_0@) == scan_rest(t@, 0, 0)->Some_0,
    {
        let n = t.len();
        let mut out: Vec<Symbol> = Vec::new();
        let mut l: usize = 0;
        let mut i: usize = 0;
        proof {
            assert(syms_model(out@) =~= Seq::<(Seq<char>, Token, Group)>::empty());
            assert(prepend(syms_model(out@), scan_rest(t@, 0, 0)) == scan_rest(t@, 0, 0)) by {
                match scan_rest(t@, 0, 0) {
                    Some(r0) => {
                        assert(syms_model(out@) + r0 =~= r0);
                    },
                    None => {},
                }
            }
        }
        while i < n
            invariant
                n == t@.len(),
                l <= i <= n,
                vstd::utf8::is_ascii_chars(t@),
                scan_rest(t@, 0, 0) == prepend(syms_model(out@), scan_rest(t@, l as int, i as int)),
            decreases n - i,
        {
            let ghost old_out = out@;
            let ghost old_l = l as int;
            let ghost old_i = i as int;
            let x = t[i];
            if exec_is_ident_char(x) {
                i += 1;
                proof {
                    assert(scan_rest(t@, old_l, old_i) == scan_rest(t@, l as int, i as int));
                }
            } else if x == ' ' || x == '\t' || x == '\r' || x == '\n' || x == '(' || x == ')'
                || x == ',' || x == ';' {
                let is_delim = x == '(' || x == ')' || x == ',' || x == ';';
                if l < i {
                    let w = copy_range(t, l, i);
                    let word = ascii_chars_to_string(&w);
                    let ghost wspec = t@.subrange(l as int, i as int);
                    let mut matched = false;
                    let mut consumed: usize = 0;
                    let ghost mut mtest = Seq::<char>::empty();
                    if !is_delim {
                        match check_multi_keywords_front(word.as_str()) {
                            Some(cands) => {
                                let ghost cs = spec_multi_keywords_front(wspec)->Some_0;
                                let ncands = cands.len();
                                let mut ci: usize = 0;
                                while ci < ncands && !matched
                                    invariant
                                        ncands == cands@.len(),
                                        ci <= ncands,
                                        cands@ == cs,
                                        n == t@.len(),
                                        l < i < n,
                                        vstd::utf8::is_ascii_chars(t@),
                                        wspec == t@.subrange(l as int, i as int),
                                        word@ == wspec,
                                        !matched ==> try_multis(t@, i as int, wspec, cs, 0)
                                            == try_multis(t@, i as int, wspec, cs, ci as int),
                                        matched ==> {
                                            &&& try_multis(t@, i as int, wspec, cs, 0) == Some(
                                                (mtest, consumed as int),
                                            )
                                            &&& i + 1 + consumed <= n
                                            &&& spec_symbols_get(mtest) is Some
                                            &&& out@.len() == old_out.len() + 1
                                            &&& out@.drop_last() == old_out
                                            &&& sym_model(out@.last()) == (mtest,
                                                spec_symbols_get(mtest)->Some_0.0,
                                                spec_symbols_get(mtest)->Some_0.1)
                                        },
                                        !matched ==> out@ == old_out,
                                    decreases ncands - ci, (if matched { 0int } else { 1int }),
                                {
                                    let p = cands[ci];
                                    let mut test = copy_range(t, l, i);
                                    test.push(' ');
                                    proof {
                                        assert(test@ =~= wspec + seq![' ']);
                                        assert(vstd::utf8::is_ascii_chars(test@)) by {
                                            assert(forall|k: int|
                                                0 <= k < wspec.len() ==> wspec[k] == t@[
                                                l + k]);
                                        }
                                    }
                                    let mut j: usize = i + 1;
                                    let mut last_letter = false;
                                    let mut parts: usize = 0;
                                    let mut steps: usize = 0;
                                    let mut broke = false;
                                    let ghost need = p as int - 1;
                                    while j < n && !broke
                                        invariant
                                            n == t@.len(),
                                            i + 1 <= j <= n,
                                            steps <= j - i - 1,
                                            parts <= steps,
                                            vstd::utf8::is_ascii_chars(t@),
                                            vstd::utf8::is_ascii_chars(test@),
                                            probe(t@, i as int + 1, need, wspec + seq![' '], false,
                                                0, 0) == (if broke {
                                                (test@, steps as int)
                                            } else {
                                                probe(t@, j as int, need, test@, last_letter,
                                                    parts as int, steps as int)
                                            }),
                                        decreases n - j, 1int - (if broke { 1int } else { 0int }),
                                    {
                                        let y = t[j];
                                        if ('a' <= y && y <= 'z') || ('A' <= y && y <= 'Z') {
                                            test.push(y);
                                            last_letter = true;
                                            steps += 1;
                                            j += 1;
                                        } else if y == ' ' || y == '\t' || y == '\r' || y == '\n' {
                                            if last_letter {
                                                if p >= 1 && parts + 1 == (p - 1) as usize {
                                                    broke = true;
                                                } else {
                                                    test.push(' ');
                                                    parts += 1;
                                                    last_letter = false;
                                                    steps += 1;
                                                    j += 1;
                                                }
                                            } else {
                                                steps += 1;
                                                j += 1;
                                            }
                                        } else {
                                            broke = true;
                                        }
                                    }
                                    proof {
                                        if !broke {
                                            assert(j == n);
                                        }
                                        assert(probe(t@, i as int + 1, need, wspec + seq![' '],
                                            false, 0, 0) == (test@, steps as int));
                                    }
                                    let test_string = ascii_chars_to_string(&test);
                                    match symbols_get(test_string.as_str()) {
                                        Some(symb) => {
                                            let ghost before = out@;
                                            out.push(symb);
                                            matched = true;
                                            consumed = steps;
                                            proof {
                                                mtest = test@;
                                                assert(try_multis(t@, i as int, wspec, cs,
                                                    ci as int) == Some((test@, steps as int)));
                                                assert(out@.drop_last() =~= before);
                                                assert(out@.last() == symb);
                                            }
                                        },
                                        None => {
                                            proof {
                                                assert(try_multis(t@, i as int, wspec, cs,
                                                    ci as int) == try_multis(t@, i as int, wspec,
                                                    cs, ci as int + 1));
                                            }
                                            ci += 1;
                                        },
                                    }
                                }
                                proof {
                                    if !matched {
                                        assert(ci >= ncands);
                                        assert(try_multis(t@, i as int, wspec, cs, ci as int)
                                            is None);
                                    }
                                }
                            },
                            None => {},
                        }
                    }
                    if matched {
                        proof {
                            // The multi-word keyword was pushed; the scan resumes
                            // past the consumed characters.
                            let step = scan_rest(t@, old_l, old_i);
                            let tm = try_multis(t@, old_i, wspec, spec_multi_keywords_front(
                                wspec)->Some_0, 0);
                            assert(tm is Some);
                            let k = if tm->Some_0.1 >= 0 { tm->Some_0.1 } else { 0 };
                            assert(k == consumed as int);
                            let ni = if old_i + 1 + k > t@.len() { t@.len() as int } else {
                                old_i + 1 + k
                            };
                            assert(ni == old_i + 1 + consumed);
                            let (tk, g) = spec_symbols_get(mtest)->Some_0;
                            assert(sym_model(out@.last()) == (mtest, tk, g));
                            lemma_syms_model_push(old_out, out@.last());
                            assert(out@ =~= old_out.push(out@.last()));
                            match scan_rest(t@, ni, ni) {
                                Some(rest) => {
                                    assert(step == Some(seq![(mtest, tk, g)] + rest));
                                    assert(syms_model(old_out) + (seq![(mtest, tk, g)] + rest)
                                        =~= syms_model(out@) + rest);
                                },
                                None => {
                                    assert(step is None);
                                },
                            }
                        }
                        let ni = i + 1 + consumed;
                        i = ni;
                        l = ni;
                    } else {
                        // A single word, then possibly the delimiter.
                        let symb = match symbols_get(word.as_str()) {
                            Some(symb) => symb,
                            None => sym(word.as_str(), Token::Identifier, Group::Identifier),
                        };
                        proof {
                            assert(sym_model(symb) == word_sym(wspec));
                        }
                        out.push(symb);
                        proof {
                            lemma_syms_model_push(old_out, symb);
                        }
                        if is_delim {
                            let ghost mid_out = out@;
                            match Symbol::match_delimiter(x) {
                                Some(d) => {
                                    proof {
                                        assert(sym_model(d) == delim_sym(x));
                                        lemma_syms_model_push(mid_out, d);
                                    }
                                    out.push(d);
                                },
                                None => {
                                    proof {
                                        assert(false);
                                    }
                                },
                            }
                        }
                        proof {
                            let step = scan_rest(t@, old_l, old_i);
                            match scan_rest(t@, old_i + 1, old_i + 1) {
                                Some(rest) => {
                                    if is_delim {
                                        assert(step == Some(
                                            seq![word_sym(wspec), delim_sym(x)] + rest));
                                        assert(syms_model(old_out) + (
                                            seq![word_sym(wspec), delim_sym(x)] + rest)
                                            =~= syms_model(out@) + rest);
                                    } else {
                                        assert(step == Some(seq![word_sym(wspec)] + rest));
                                        assert(syms_model(old_out) + (seq![word_sym(wspec)]
                                            + rest) =~= syms_model(out@) + rest);
                                    }
                                },
                                None => {
                                    assert(step is None);
                                },
                            }
                        }
                        i += 1;
                        l = i;
                    }
                } else {
                    if is_delim {
                        let ghost mid_out = out@;
                        match Symbol::match_delimiter(x) {
                            Some(d) => {
                                proof {
                                    assert(sym_model(d) == delim_sym(x));
                                    lemma_syms_model_push(mid_out, d);
                                }
                                out.push(d);
                            },
                            None => {
                                proof {
                                    assert(false);
                                }
                            },
                        }
                    }
                    proof {
                        let step = scan_rest(t@, old_l, old_i);
                        match scan_rest(t@, old_i + 1, old_i + 1) {
                            Some(rest) => {
                                if is_delim {
                                    assert(step == Some(seq![delim_sym(x)] + rest));
                                    assert(syms_model(old_out) + (seq![delim_sym(x)] + rest)
                                        =~= syms_model(out@) + rest);
                                } else {
                                    assert(step == Some(rest));
                                }
                            },
                            None => {
                                assert(step is None);
                            },
                        }
                    }
                    i += 1;
                    l = i;
                }
            } else if x == '*' {
                let symb = sym("*", Token::Identifier, Group::Identifier);
                proof {
                    assert(sym_model(symb) == ("*"@, Token::Identifier, Group::Identifier));
                    lemma_syms_model_push(old_out, symb);
                }
                out.push(symb);
                proof {
                    let step = scan_rest(t@, old_l, old_i);
                    match scan_rest(t@, old_i + 1, old_i + 1) {
                        Some(rest) => {
                            assert(step == Some(
                                seq![("*"@, Token::Identifier, Group::Identifier)] + rest));
                            assert(syms_model(old_out) + (
                                seq![("*"@, Token::Identifier, Group::Identifier)] + rest)
                                =~= syms_model(out@) + rest);
                        },
                        None => {
                            assert(step is None);
                        },
                    }
                }
                i += 1;
                l = i;
            } else {
                proof {
                    assert(scan_rest(t@, old_l, old_i) is None);
                }
                return Err(LexerError::NotAllowedChar);
            }
        }
        if l < n {
            let ghost old_out = out@;
            let w = copy_range(t, l, n);
            let word = ascii_chars_to_string(&w);
            let ghost wspec = t@.subrange(l as int, n as int);
            let symb = match symbols_get(word.as_str()) {
                Some(symb) => symb,
                None => sym(word.as_str(), Token::Identifier, Group::Identifier),
            };
            proof {
                assert(sym_model(symb) == word_sym(wspec));
                lemma_syms_model_push(old_out, symb);
            }
            out.push(symb);
            proof {
                assert(scan_rest(t@, l as int, n as int) == Some(seq![word_sym(wspec)]));
                assert(syms_model(old_out) + seq![word_sym(wspec)] =~= syms_model(out@));
                assert(syms_model(out@) + Seq::<(Seq<char>, Token, Group)>::empty()
                    =~= syms_model(out@));
            }
        } else {
            proof {
                assert(scan_rest(t@, l as int, n as int) == Some(
                    Seq::<(Seq<char>, Token, Group)>::empty()));
                assert(syms_model(out@) + Seq::<(Seq<char>, Token, Group)>::empty()
                    =~= syms_model(out@));
            }
        }
        Ok(out)
    }
}

proof fn lemma_syms_model_push(v: Seq<Symbol>, s: Symbol)
    ensures
        syms_model(v.push(s)) == syms_model(v) + seq![sym_model(s)],
{
    assert(syms_model(v.push(s)) =~= syms_model(v) + seq![sym_model(s)]);
}

/// Prepends already-emitted symbols to the rest of a scan.
pub open spec fn prepend(
    p: Seq<(Seq<char>, Token, Group)>,
    o: Option<Seq<(Seq<char>, Token, Group)>>,
) -> Option<Seq<(Seq<char>, Token, Group)>> {
    match o {
        Some(r) => Some(p + r),
        None => None,
    }
}

fn copy_range(t: &Vec<char>, l: usize, r: usize) -> (v: Vec<char>)
    requires
        l <= r <= t@.len(),
    ensures
        v@ == t@.subrange(l as int, r as int),
{
    let mut v: Vec<char> = Vec::new();
    let mut i: usize = l;
    while i < r
        invariant
            l <= i <= r <= t@.len(),
            v@ =~= t@.subrange(l as int, i as int),
        decreases r - i,
    {
        v.push(t[i]);
        proof {
            assert(v@ =~= t@.subrange(l as int, i + 1));
        }
        i += 1;
    }
    v
}

} // verus!
