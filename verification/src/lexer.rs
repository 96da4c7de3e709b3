//! Scanning of a placeholder's interior: finding the matching close byte
//! while tracking nested `${` openings.

use vstd::prelude::*;

verus! {

/// True when the two-character placeholder opening `${` begins at `i` of `s`.
pub open spec fn open_at(s: Seq<char>, i: int) -> bool {
    0 <= i && i + 1 < s.len() && s[i] == '$' && s[i + 1] == '{'
}

/// True when `s` contains at least one complete `${` opening.
pub open spec fn contains_open(s: Seq<char>) -> bool {
    exists|j: int| open_at(s, j)
}

/// One scan over a key search space, starting at `i` with `depth` openings
/// still unclosed and `found` recording whether a nested opening was already
/// seen. Returns the position where the key's text ends (the matching close,
/// or the end of the input), whether a nested opening was seen, and whether a
/// matching close was found.
pub open spec fn key_scan(s: Seq<char>, i: int, depth: int, found: bool) -> (int, bool, bool)
    decreases s.len() - i,
{
    if i < 0 || i >= s.len() {
        (s.len() as int, found, false)
    } else if s[i] == '}' {
        if depth <= 1 {
            (i, found, true)
        } else {
            key_scan(s, i + 1, depth - 1, found)
        }
    } else if open_at(s, i) {
        key_scan(s, i + 2, depth + 1, true)
    } else {
        key_scan(s, i + 1, depth, found)
    }
}

/// The end position a key scan reports stays within the search space, and a
/// scan that closed stopped on the close byte itself.
pub proof fn lemma_key_scan_bounds(s: Seq<char>, i: int, depth: int, found: bool)
    requires
        0 <= i <= s.len(),
    ensures
        i <= key_scan(s, i, depth, found).0 <= s.len(),
        key_scan(s, i, depth, found).2 ==> key_scan(s, i, depth, found).0 < s.len()
            && s[key_scan(s, i, depth, found).0] == '}',
        !key_scan(s, i, depth, found).2 ==> key_scan(s, i, depth, found).0 == s.len(),
        found ==> key_scan(s, i, depth, found).1,
    decreases s.len() - i,
{
    if i >= s.len() {
    } else if s[i] == '}' {
        if depth <= 1 {
        } else {
            lemma_key_scan_bounds(s, i + 1, depth - 1, found);
        }
    } else if open_at(s, i) {
        lemma_key_scan_bounds(s, i + 2, depth + 1, true);
    } else {
        lemma_key_scan_bounds(s, i + 1, depth, found);
    }
}

/// The nesting flag a key scan reports is true exactly when a complete `${`
/// opening lies wholly before the reported end of the key's text.
pub proof fn lemma_key_scan_found(s: Seq<char>, i: int, depth: int, found: bool)
    requires
        0 <= i <= s.len(),
    ensures
        key_scan(s, i, depth, found).1 <==> (found || exists|j: int|
            i <= j && j + 1 < key_scan(s, i, depth, found).0 && open_at(s, j)),
    decreases s.len() - i,
{
    let end = key_scan(s, i, depth, found).0;
    lemma_key_scan_bounds(s, i, depth, found);
    if i >= s.len() {
    } else if s[i] == '}' {
        if depth <= 1 {
        } else {
            lemma_key_scan_found(s, i + 1, depth - 1, found);
            assert(forall|j: int| i <= j && j + 1 < end && open_at(s, j) ==> i + 1 <= j);
        }
    } else if open_at(s, i) {
        lemma_key_scan_found(s, i + 2, depth + 1, true);
        lemma_key_scan_bounds(s, i + 2, depth + 1, true);
        assert(open_at(s, i) && i + 1 < end);
    } else {
        lemma_key_scan_found(s, i + 1, depth, found);
        assert(forall|j: int| i <= j && j + 1 < end && open_at(s, j) ==> i + 1 <= j);
    }
}

/// Law: the nesting flag reported for a key is true if and only if the key's
/// raw text contains at least one complete `${` opening sequence.
pub proof fn lemma_has_nested_iff_contains_open(space: Seq<char>)
    ensures
        key_scan(space, 0, 1, false).1 <==> contains_open(
            space.subrange(0, key_scan(space, 0, 1, false).0),
        ),
{
    let end = key_scan(space, 0, 1, false).0;
    let text = space.subrange(0, end);
    lemma_key_scan_bounds(space, 0, 1, false);
    lemma_key_scan_found(space, 0, 1, false);
    assert forall|j: int| 0 <= j && j + 1 < end && open_at(space, j) implies open_at(text, j) by {
        assert(text[j] == space[j] && text[j + 1] == space[j + 1]);
    }
    assert forall|j: int| open_at(text, j) implies 0 <= j && j + 1 < end && open_at(space, j) by {
        assert(text[j] == space[j] && text[j + 1] == space[j + 1]);
    }
}

/// The configuration a lexer is built with: the escape byte in force (the
/// opening `${` and the close byte `}` are fixed). The escape byte is
/// carried for the tokenizer's configuration only; it is a trigger outside
/// placeholders alone, so [`Lexer::search`], which scans a placeholder's
/// interior, never consults it.
#[derive(Clone, Copy, Debug)]
pub struct LexerRules {
    escape: u8,
}

impl LexerRules {
    /// The escape byte these rules carry.
    pub closed spec fn spec_escape(&self) -> u8 {
        self.escape
    }

    /// Replaces the escape byte, keeping everything else.
    pub fn with_escape(self, escape: u8) -> (r: Self)
        ensures
            r.spec_escape() == escape,
    {
        LexerRules { escape }
    }

    /// Reads the escape byte these rules carry.
    pub fn escape(&self) -> (r: u8)
        ensures
            r == self.spec_escape(),
    {
        self.escape
    }
}

impl Default for LexerRules {
    /// Rules with the default escape byte, the backslash.
    fn default() -> (r: Self)
        ensures
            r.spec_escape() == 92u8,
    {
        LexerRules { escape: 92u8 }
    }
}

/// Scans the interior of one placeholder: the text between `${` and its
/// matching `}`, where further `${` openings nest.
#[derive(Debug)]
pub struct Lexer<'a> {
    search_space: &'a str,
    rules: LexerRules,
    read: usize,
    found: bool,
    closed: bool,
}

impl<'a> Lexer<'a> {
    /// The text this lexer searches.
    pub closed spec fn spec_space(&self) -> Seq<char> {
        self.search_space@
    }

    /// The rules this lexer follows.
    pub closed spec fn spec_rules(&self) -> LexerRules {
        self.rules
    }

    /// Code points consumed so far, the close byte included once it is found.
    pub closed spec fn spec_read(&self) -> int {
        self.read as int
    }

    /// Whether a nested `${` opening was seen.
    pub closed spec fn spec_found(&self) -> bool {
        self.found
    }

    /// Whether the matching close byte was found.
    pub closed spec fn spec_closed(&self) -> bool {
        self.closed
    }

    /// A fresh lexer over `search_space`.
    pub fn new(search_space: &'a str, rules: LexerRules) -> (r: Lexer<'a>)
        ensures
            r.spec_space() == search_space@,
            r.spec_rules() == rules,
            r.spec_read() == 0,
            !r.spec_found(),
            !r.spec_closed(),
    {
        Lexer { search_space, rules, read: 0, found: false, closed: false }
    }

    /// Code points consumed so far.
    pub fn read(&self) -> (r: usize)
        ensures
            r == self.spec_read(),
    {
        self.read
    }

    /// Whether the scan saw a complete nested `${` opening.
    pub fn found_nested(&self) -> (r: bool)
        ensures
            r == self.spec_found(),
    {
        self.found
    }

    /// Whether the scan found the matching close byte.
    pub fn terminated(&self) -> (r: bool)
        ensures
            r == self.spec_closed(),
    {
        self.closed
    }

    /// Scans forward for the close byte that matches the opening this lexer
    /// stands inside, counting nested `${` openings on the way, and returns
    /// the key's raw text: everything up to but excluding the matching close,
    /// or the whole remaining search space when no close is found.
    pub fn search(&mut self) -> (r: &'a str)
        requires
            old(self).spec_read() <= old(self).spec_space().len(),
        ensures
            final(self).spec_space() == old(self).spec_space(),
            final(self).spec_rules() == old(self).spec_rules(),
            ({
                let sc = key_scan(old(self).spec_space(), old(self).spec_read(), 1, old(self).spec_found());
                r@ == old(self).spec_space().subrange(old(self).spec_read(), sc.0)
                    && final(self).spec_read() == sc.0 + (if sc.2 { 1int } else { 0int })
                    && final(self).spec_found() == sc.1
                    && final(self).spec_closed() == sc.2
            }),
    {
        let ghost space = self.search_space@;
        let ghost found0 = self.found;
        let n = self.search_space.unicode_len();
        let start = self.read;
        let mut end = start;
        let mut depth: usize = 1;
        let mut found = self.found;
        let mut closed = false;
        while end < n && !closed
            invariant
                self == old(self),
                n == space.len(),
                space == self.search_space@,
                start <= end <= n,
                depth >= 1,
                2 * (depth - 1) <= end - start,
                closed ==> end < n && key_scan(space, start as int, 1, found0) == (
                    end as int,
                    found,
                    true,
                ),
                !closed ==> key_scan(space, start as int, 1, found0)
                    == key_scan(space, end as int, depth as int, found),
            decreases n - end + (if closed { 0int } else { 1int }),
        {
            let c = self.search_space.get_char(end);
            if c == '}' {
                if depth == 1 {
                    closed = true;
                } else {
                    depth = depth - 1;
                    end = end + 1;
                }
            } else if c == '$' && end + 1 < n && self.search_space.get_char(end + 1) == '{' {
                depth = depth + 1;
                found = true;
                end = end + 2;
            } else {
                end = end + 1;
            }
        }
        let r = self.search_space.substring_char(start, end);
        self.read = if closed { end + 1 } else { end };
        self.found = found;
        self.closed = closed;
        r
    }
}

} // verus!
