//! Formatting of a document's list of import statements: each import is
//! written with its comments, keyed by its URI and names, and the imports
//! are written sorted by key, the last of those with the same key winning.
use vstd::prelude::*;

use super::comments::any_owned;
use super::comments::inline_end;
use super::comments::owned_comment;
use super::comments::run_start;
use super::comments::trivia_well_formed;
use super::comments::SyntaxElement;
use super::comments::INLINE_COMMENT_SPACE;
use super::comments::NEWLINE;
use super::comments::newline_count;
use super::state::append_repeated;
use super::state::repeat;
use super::state::INDENT;
use super::syntax::SyntaxKind;
use crate::gauntlet::config::chars_lt;
use crate::gauntlet::config::lemma_text_order;
use crate::gauntlet::config::text_lt;
use crate::text::chars_eq;
use crate::text::chars_of;
use crate::text::ends_with;
use crate::text::has_suffix;
use crate::text::push_char;
use crate::text::spec_trim;
use crate::text::trim;

verus! {

/// A comment as written in an import list: trimmed, ended by a line feed.
pub open spec fn plain_comment(t: Seq<char>) -> Seq<char> {
    spec_trim(t).push('\n')
}

/// The comments of their own lines in `sibs[s..k]`, each indented by `ind`.
pub open spec fn owned_lines(sibs: Seq<SyntaxElement>, s: int, k: int, ind: Seq<char>) -> Seq<
    char,
>
    decreases k - s,
{
    if k <= s {
        Seq::empty()
    } else {
        owned_lines(sibs, s, k - 1, ind) + if owned_comment(sibs, k - 1) {
            ind + plain_comment(sibs[k - 1].spec_text())
        } else {
            Seq::empty()
        }
    }
}

/// The comments that precede `sibs[i]` and belong to it, each on a line
/// indented `indents` times; when they interrupt what would otherwise stay
/// on one line, a line feed comes first and they are indented once more.
pub open spec fn comments_before(sibs: Seq<SyntaxElement>, i: int, indents: nat, interrupting: bool) -> Seq<
    char,
> {
    let s = run_start(sibs, i);
    let now = interrupting && any_owned(sibs, s, i);
    let lead = if now {
        NEWLINE@
    } else {
        Seq::empty()
    };
    lead + owned_lines(sibs, s, i, repeat(INDENT@, if now { indents + 1 } else { indents }))
}

/// The comment on the line of `sibs[i]`, two spaces after it; without one,
/// a line feed when `newline_needed` is set.
pub open spec fn comment_after(sibs: Seq<SyntaxElement>, i: int, newline_needed: bool) -> Seq<char> {
    let j = inline_end(sibs, i + 1);
    if j < sibs.len() && sibs[j].spec_kind() == SyntaxKind::Comment {
        INLINE_COMMENT_SPACE@ + plain_comment(sibs[j].spec_text())
    } else if newline_needed {
        NEWLINE@
    } else {
        Seq::empty()
    }
}

/// Appends a comment as [`plain_comment`] describes it.
fn push_plain_comment(text: &str, buffer: &mut String)
    ensures
        final(buffer)@ == old(buffer)@ + plain_comment(text@),
{
    let t = trim(text);
    buffer.append(t.as_str());
    push_char(buffer, '\n');
    assert(buffer@ =~= old(buffer)@ + plain_comment(text@));
}

/// Whether `sibs[j]` is a comment on a line of its own.
fn owns_line(sibs: &[SyntaxElement], j: usize) -> (b: bool)
    requires
        j < sibs@.len(),
    ensures
        b == owned_comment(sibs@, j as int),
{
    j > 0 && sibs[j].kind() == SyntaxKind::Comment && sibs[j - 1].kind() == SyntaxKind::Whitespace
        && newline_count(sibs[j - 1].text()) > 0
}

/// Appends the comments that precede `siblings[index]`, as
/// [`comments_before`] describes them.
pub fn push_comments_before(
    siblings: &[SyntaxElement],
    index: usize,
    indents: usize,
    interrupting: bool,
    buffer: &mut String,
)
    requires
        index <= siblings@.len(),
        indents < usize::MAX,
    ensures
        final(buffer)@ == old(buffer)@ + comments_before(
            siblings@,
            index as int,
            indents as nat,
            interrupting,
        ),
{
    let ghost sibs = siblings@;
    let mut s = index;
    while s > 0 && siblings[s - 1].kind().is_trivia()
        invariant
            s <= index <= sibs.len(),
            sibs == siblings@,
            run_start(sibs, s as int) == run_start(sibs, index as int),
        decreases s,
    {
        s = s - 1;
    }
    let mut found = false;
    let mut k = s;
    while k < index
        invariant
            s <= k <= index <= sibs.len(),
            sibs == siblings@,
            found == any_owned(sibs, s as int, k as int),
        decreases index - k,
    {
        if owns_line(siblings, k) {
            found = true;
        }
        k = k + 1;
    }
    let now = interrupting && found;
    if now {
        buffer.append(NEWLINE);
    }
    let n = if now {
        indents + 1
    } else {
        indents
    };
    let ghost ind = repeat(INDENT@, n as nat);
    let ghost start = buffer@;
    k = s;
    while k < index
        invariant
            s <= k <= index <= sibs.len(),
            sibs == siblings@,
            ind == repeat(INDENT@, n as nat),
            buffer@ == start + owned_lines(sibs, s as int, k as int, ind),
        decreases index - k,
    {
        if owns_line(siblings, k) {
            append_repeated(buffer, INDENT, n);
            push_plain_comment(siblings[k].text(), buffer);
        }
        k = k + 1;
        assert(buffer@ =~= start + owned_lines(sibs, s as int, k as int, ind));
    }
}

/// Appends the comment on the line of `siblings[index]`, as
/// [`comment_after`] describes it.
pub fn push_comment_after(
    siblings: &[SyntaxElement],
    index: usize,
    newline_needed: bool,
    buffer: &mut String,
)
    requires
        index < siblings@.len(),
    ensures
        final(buffer)@ == old(buffer)@ + comment_after(siblings@, index as int, newline_needed),
{
    let ghost sibs = siblings@;
    let n = siblings.len();
    let mut j = index + 1;
    while j < n && siblings[j].kind() == SyntaxKind::Whitespace && newline_count(
        siblings[j].text(),
    ) == 0
        invariant
            index < j <= sibs.len(),
            n == sibs.len(),
            sibs == siblings@,
            inline_end(sibs, j as int) == inline_end(sibs, index + 1),
        decreases sibs.len() - j,
    {
        j = j + 1;
    }
    if j < n && siblings[j].kind() == SyntaxKind::Comment {
        buffer.append(INLINE_COMMENT_SPACE);
        push_plain_comment(siblings[j].text(), buffer);
    } else if newline_needed {
        buffer.append(NEWLINE);
    }
}

/// Whether the characters of `s` end with those of `suffix`.
fn str_ends_with(s: &String, suffix: &str) -> (b: bool)
    ensures
        b == has_suffix(s@, suffix@),
{
    let a = chars_of(s.as_str());
    let b = chars_of(suffix);
    ends_with(a.as_slice(), b.as_slice())
}

/// Two indentations.
pub open spec fn two_indents() -> Seq<char> {
    INDENT@ + INDENT@
}

/// One part `ps[k]` of an import's URI: a quote becomes a double quote, and
/// its text goes to the output and to the key.
pub open spec fn uri_parts(ps: Seq<SyntaxElement>, n: int, val: Seq<char>, key: Seq<char>) -> (
    Seq<char>,
    Seq<char>,
)
    decreases n,
{
    if n <= 0 || n > ps.len() {
        (val, key)
    } else {
        let (v, k) = uri_parts(ps, n - 1, val, key);
        let p = ps[n - 1];
        if p.spec_kind() == SyntaxKind::DoubleQuote || p.spec_kind() == SyntaxKind::SingleQuote {
            (v.push('"'), k)
        } else if p.spec_kind() == SyntaxKind::LiteralStringText {
            (v + p.spec_text(), k + p.spec_text())
        } else {
            (v, k)
        }
    }
}

/// One part `ac[k]` of an alias clause, written after `val`; `second` tells
/// whether the clause's first name was written.
#[verifier::opaque]
pub open spec fn alias_part(ac: Seq<SyntaxElement>, k: int, val: Seq<char>, second: bool) -> (
    Seq<char>,
    bool,
) {
    let e = ac[k];
    let kind = e.spec_kind();
    if kind == SyntaxKind::AliasKeyword {
        (val + INDENT@ + "alias"@ + comment_after(ac, k, false), second)
    } else if kind == SyntaxKind::Ident {
        let v1 = val + comments_before(ac, k, 2, !has_suffix(val, NEWLINE@));
        let v2 = if has_suffix(v1, "alias"@) || has_suffix(v1, "as"@) {
            v1.push(' ')
        } else {
            v1 + two_indents()
        };
        let v3 = v2 + e.spec_text();
        if !second {
            (v3 + comment_after(ac, k, false), true)
        } else {
            (v3, second)
        }
    } else if kind == SyntaxKind::AsKeyword {
        let v1 = val + comments_before(ac, k, 2, !has_suffix(val, NEWLINE@));
        let v2 = if has_suffix(v1, NEWLINE@) {
            v1 + two_indents()
        } else {
            v1.push(' ')
        };
        (v2 + "as"@ + comment_after(ac, k, false), second)
    } else {
        (val, second)
    }
}

/// The first `n` parts of an alias clause, written after `val`.
pub open spec fn alias_parts_after(ac: Seq<SyntaxElement>, n: int, val: Seq<char>) -> (
    Seq<char>,
    bool,
)
    decreases n,
{
    if n <= 0 || n > ac.len() {
        (val, false)
    } else {
        let (v, second) = alias_parts_after(ac, n - 1, val);
        alias_part(ac, n - 1, v, second)
    }
}

/// One element `cs[j]` of an import after its keyword, written after `val`
/// and adding to the key `key`.
#[verifier::opaque]
pub open spec fn import_part(cs: Seq<SyntaxElement>, j: int, key: Seq<char>, val: Seq<char>) -> (
    Seq<char>,
    Seq<char>,
) {
    let e = cs[j];
    let kind = e.spec_kind();
    if kind == SyntaxKind::LiteralStringNode {
        let v1 = val + comments_before(cs, j, 1, !has_suffix(val, NEWLINE@));
        let v2 = if has_suffix(v1, "import"@) {
            v1.push(' ')
        } else if has_suffix(v1, NEWLINE@) {
            v1 + INDENT@
        } else {
            v1
        };
        let ps = e.spec_children();
        let (v3, k3) = uri_parts(ps, ps.len() as int, v2, key);
        (k3, v3 + comment_after(cs, j, false))
    } else if kind == SyntaxKind::AsKeyword {
        let v1 = if !has_suffix(val, NEWLINE@) {
            val + NEWLINE@
        } else {
            val
        };
        (key, v1 + comments_before(cs, j, 1, false) + INDENT@ + "as"@ + comment_after(cs, j, false))
    } else if kind == SyntaxKind::Ident {
        let v1 = val + comments_before(cs, j, 2, !has_suffix(val, NEWLINE@));
        let v2 = if has_suffix(v1, "as"@) {
            v1.push(' ')
        } else {
            v1 + two_indents()
        };
        (key + e.spec_text(), v2 + e.spec_text() + comment_after(cs, j, false))
    } else if kind == SyntaxKind::ImportAliasNode {
        let v1 = if !has_suffix(val, NEWLINE@) {
            val + NEWLINE@
        } else {
            val
        };
        let v2 = v1 + comments_before(cs, j, 1, false);
        let ac = e.spec_children();
        (key, alias_parts_after(ac, ac.len() as int, v2).0)
    } else {
        (key, val)
    }
}

/// The elements `cs[1..n]` of an import, written in turn after `val`.
pub open spec fn import_parts(cs: Seq<SyntaxElement>, n: int, key: Seq<char>, val: Seq<char>) -> (
    Seq<char>,
    Seq<char>,
)
    decreases n,
{
    if n <= 1 || n > cs.len() {
        (key, val)
    } else {
        let (k, v) = import_parts(cs, n - 1, key, val);
        import_part(cs, n - 1, k, v)
    }
}

/// The key and text of the import `sibs[i]`: its preceding comments, the
/// `import` keyword with its inline comment, its other elements in turn,
/// and its inline comment or a line feed. The key is the text of its URI
/// followed by the names it holds outside alias clauses.
pub open spec fn import_entry(sibs: Seq<SyntaxElement>, i: int) -> (Seq<char>, Seq<char>) {
    let cs = sibs[i].spec_children();
    let v0 = comments_before(sibs, i, 0, false) + "import"@ + comment_after(cs, 0, false);
    let (k, v) = import_parts(cs, cs.len() as int, Seq::empty(), v0);
    (k, v + comment_after(sibs, i, !has_suffix(v, NEWLINE@)))
}

/// Whether an import in an import list is as a parser makes it: its first
/// child is its keyword, its URI holds only quotes and text, and it holds
/// only what an import can hold.
pub open spec fn listed_import_well_formed(sibs: Seq<SyntaxElement>, i: int) -> bool {
    let cs = sibs[i].spec_children();
    &&& 0 <= i < sibs.len()
    &&& sibs[i] is Node
    &&& cs.len() >= 1
    &&& cs[0] is Token
    &&& forall|j: int|
        1 <= j < cs.len() ==> {
            let kind = (#[trigger] cs[j]).spec_kind();
            ||| (kind == SyntaxKind::LiteralStringNode && forall|k: int|
                0 <= k < cs[j].spec_children().len() ==> {
                    let pk = (#[trigger] cs[j].spec_children()[k]).spec_kind();
                    pk == SyntaxKind::DoubleQuote || pk == SyntaxKind::SingleQuote || pk
                        == SyntaxKind::LiteralStringText
                })
            ||| kind == SyntaxKind::AsKeyword
            ||| kind == SyntaxKind::Ident
            ||| (kind == SyntaxKind::ImportAliasNode && forall|k: int|
                0 <= k < cs[j].spec_children().len() ==> {
                    let ak = (#[trigger] cs[j].spec_children()[k]).spec_kind();
                    ak == SyntaxKind::AliasKeyword || ak == SyntaxKind::Ident || ak
                        == SyntaxKind::AsKeyword || ak == SyntaxKind::ImportAliasNode
                        || ak.spec_is_trivia()
                })
            ||| kind.spec_is_trivia()
        }
}

/// Appends one part of an alias clause; returns whether the clause's first
/// name was written.
fn push_alias_part(ac: &[SyntaxElement], k: usize, val: &mut String, second: bool) -> (r: bool)
    requires
        k < ac@.len(),
    ensures
        final(val)@ == alias_part(ac@, k as int, old(val)@, second).0,
        r == alias_part(ac@, k as int, old(val)@, second).1,
{
    reveal(alias_part);
    let kind = ac[k].kind();
    if kind == SyntaxKind::AliasKeyword {
        val.append(INDENT);
        val.append("alias");
        push_comment_after(ac, k, false, val);
        second
    } else if kind == SyntaxKind::Ident {
        let nl = str_ends_with(val, NEWLINE);
        push_comments_before(ac, k, 2, !nl, val);
        if str_ends_with(val, "alias") || str_ends_with(val, "as") {
            push_char(val, ' ');
        } else {
            val.append(INDENT);
            val.append(INDENT);
        }
        val.append(ac[k].text());
        if !second {
            push_comment_after(ac, k, false, val);
        }
        true
    } else if kind == SyntaxKind::AsKeyword {
        let nl = str_ends_with(val, NEWLINE);
        push_comments_before(ac, k, 2, !nl, val);
        if str_ends_with(val, NEWLINE) {
            val.append(INDENT);
            val.append(INDENT);
        } else {
            push_char(val, ' ');
        }
        val.append("as");
        push_comment_after(ac, k, false, val);
        second
    } else {
        second
    }
}

/// Appends one element of an import after its keyword, adding to the key.
fn push_import_part(cs: &[SyntaxElement], j: usize, key: &mut String, val: &mut String)
    requires
        j < cs@.len(),
    ensures
        (final(key)@, final(val)@) == import_part(cs@, j as int, old(key)@, old(val)@),
{
    reveal(import_part);
    let e = &cs[j];
    let kind = e.kind();
    if kind == SyntaxKind::LiteralStringNode {
        let nl = str_ends_with(val, NEWLINE);
        push_comments_before(cs, j, 1, !nl, val);
        if str_ends_with(val, "import") {
            push_char(val, ' ');
        } else if str_ends_with(val, NEWLINE) {
            val.append(INDENT);
        }
        let ps = e.children();
        let ghost v2 = val@;
        let ghost k2 = key@;
        let mut k: usize = 0;
        while k < ps.len()
            invariant
                k <= ps@.len(),
                ps@ == e.spec_children(),
                (val@, key@) == uri_parts(ps@, k as int, v2, k2),
            decreases ps@.len() - k,
        {
            let pk = ps[k].kind();
            if pk == SyntaxKind::DoubleQuote || pk == SyntaxKind::SingleQuote {
                push_char(val, '"');
            } else if pk == SyntaxKind::LiteralStringText {
                key.append(ps[k].text());
                val.append(ps[k].text());
            }
            k = k + 1;
        }
        push_comment_after(cs, j, false, val);
    } else if kind == SyntaxKind::AsKeyword {
        if !str_ends_with(val, NEWLINE) {
            val.append(NEWLINE);
        }
        push_comments_before(cs, j, 1, false, val);
        val.append(INDENT);
        val.append("as");
        push_comment_after(cs, j, false, val);
    } else if kind == SyntaxKind::Ident {
        key.append(e.text());
        let nl = str_ends_with(val, NEWLINE);
        push_comments_before(cs, j, 2, !nl, val);
        if str_ends_with(val, "as") {
            push_char(val, ' ');
        } else {
            val.append(INDENT);
            val.append(INDENT);
        }
        val.append(e.text());
        push_comment_after(cs, j, false, val);
    } else if kind == SyntaxKind::ImportAliasNode {
        if !str_ends_with(val, NEWLINE) {
            val.append(NEWLINE);
        }
        push_comments_before(cs, j, 1, false, val);
        let ac = e.children();
        let ghost v2 = val@;
        let mut second = false;
        let mut k: usize = 0;
        while k < ac.len()
            invariant
                k <= ac@.len(),
                ac@ == e.spec_children(),
                (val@, second) == alias_parts_after(ac@, k as int, v2),
            decreases ac@.len() - k,
        {
            second = push_alias_part(ac, k, val, second);
            k = k + 1;
        }
    }
}

/// Gets the key and text of an import, as [`import_entry`] describes them.
pub fn import_entry_text(siblings: &[SyntaxElement], index: usize) -> (r: (String, String))
    requires
        index < siblings@.len(),
        siblings@[index as int].spec_children().len() >= 1,
    ensures
        (r.0@, r.1@) == import_entry(siblings@, index as int),
{
    let cs = siblings[index].children();
    let mut key = String::new();
    let mut val = String::new();
    push_comments_before(siblings, index, 0, false, &mut val);
    val.append("import");
    push_comment_after(cs, 0, false, &mut val);
    let ghost v0 = val@;
    proof {
        reveal_strlit("");
    }
    let ghost k0 = key@;
    assert(k0 == Seq::<char>::empty());
    let mut j: usize = 1;
    while j < cs.len()
        invariant
            1 <= j <= cs@.len(),
            cs@ == siblings@[index as int].spec_children(),
            (key@, val@) == import_parts(cs@, j as int, k0, v0),
        decreases cs@.len() - j,
    {
        push_import_part(cs, j, &mut key, &mut val);
        j = j + 1;
    }
    let nl = str_ends_with(&val, NEWLINE);
    push_comment_after(siblings, index, !nl, &mut val);
    (key, val)
}

/// `t` with the entry `(k, v)` put in its place: after the entries whose
/// keys sort before `k`, replacing an entry with the key `k`.
pub open spec fn put_sorted(t: Seq<(Seq<char>, Seq<char>)>, k: Seq<char>, v: Seq<char>) -> Seq<
    (Seq<char>, Seq<char>),
>
    decreases t.len(),
{
    if t.len() == 0 {
        seq![(k, v)]
    } else if text_lt(t[0].0, k) {
        seq![t[0]] + put_sorted(t.drop_first(), k, v)
    } else if t[0].0 == k {
        seq![(k, v)] + t.drop_first()
    } else {
        seq![(k, v)] + t
    }
}

/// The imports among the first `n` of `sibs`, each put in its place by key.
pub open spec fn import_table(sibs: Seq<SyntaxElement>, n: int) -> Seq<(Seq<char>, Seq<char>)>
    decreases n,
{
    if n <= 0 || n > sibs.len() {
        Seq::empty()
    } else {
        let t = import_table(sibs, n - 1);
        if sibs[n - 1].spec_kind() == SyntaxKind::ImportStatementNode {
            let (k, v) = import_entry(sibs, n - 1);
            put_sorted(t, k, v)
        } else {
            t
        }
    }
}

/// The texts of the entries of `t`, one after another.
pub open spec fn table_text(t: Seq<(Seq<char>, Seq<char>)>) -> Seq<char>
    decreases t.len(),
{
    if t.len() == 0 {
        Seq::empty()
    } else {
        table_text(t.drop_last()) + t.last().1
    }
}

/// What the import list of a document with children `sibs` is written as:
/// the texts of its imports sorted by key, one per key (the last import
/// with a key wins).
pub open spec fn imports_text(sibs: Seq<SyntaxElement>) -> Seq<char> {
    table_text(import_table(sibs, sibs.len() as int))
}

/// Putting an entry at the first position whose key does not sort before
/// its key is what [`put_sorted`] does.
proof fn lemma_put_sorted_at(t: Seq<(Seq<char>, Seq<char>)>, k: Seq<char>, v: Seq<char>, p: int)
    requires
        0 <= p <= t.len(),
        forall|i: int| 0 <= i < p ==> text_lt(#[trigger] t[i].0, k),
        p == t.len() || !text_lt(t[p].0, k),
    ensures
        put_sorted(t, k, v) == if p < t.len() && t[p].0 == k {
            t.update(p, (k, v))
        } else {
            t.insert(p, (k, v))
        },
    decreases p,
{
    if p > 0 {
        let rest = t.drop_first();
        assert(text_lt(t[0].0, k));
        assert forall|i: int| 0 <= i < p - 1 implies text_lt(#[trigger] rest[i].0, k) by {
            assert(rest[i] == t[i + 1]);
        }
        if p < t.len() {
            assert(rest[p - 1] == t[p]);
        }
        lemma_put_sorted_at(rest, k, v, p - 1);
        if p < t.len() && t[p].0 == k {
            assert(t.update(p, (k, v)) =~= seq![t[0]] + rest.update(p - 1, (k, v)));
        } else {
            assert(t.insert(p, (k, v)) =~= seq![t[0]] + rest.insert(p - 1, (k, v)));
        }
    } else {
        if t.len() > 0 && t[0].0 == k {
            assert(t.update(0, (k, v)) =~= seq![(k, v)] + t.drop_first());
        } else {
            assert(t.insert(0, (k, v)) =~= seq![(k, v)] + t);
        }
    }
}

/// The views of a table's entries.
pub open spec fn table_view(t: Seq<(String, String)>) -> Seq<(Seq<char>, Seq<char>)> {
    t.map_values(|e: (String, String)| (e.0@, e.1@))
}

/// Puts an entry in its place in a table.
fn put_entry(table: &mut Vec<(String, String)>, key: String, val: String)
    ensures
        table_view(final(table)@) == put_sorted(table_view(old(table)@), key@, val@),
{
    let kc = chars_of(key.as_str());
    let mut p: usize = 0;
    while p < table.len() && chars_lt(chars_of(table[p].0.as_str()).as_slice(), kc.as_slice())
        invariant
            p <= table@.len(),
            kc@ == key@,
            forall|i: int| 0 <= i < p ==> text_lt(#[trigger] table@[i].0@, key@),
        decreases table@.len() - p,
    {
        p = p + 1;
    }
    let ghost t = table_view(table@);
    proof {
        assert forall|i: int| 0 <= i < p implies text_lt(#[trigger] t[i].0, key@) by {
            assert(t[i].0 == table@[i].0@);
        }
        if p < table@.len() {
            assert(t[p as int].0 == table@[p as int].0@);
        }
        lemma_put_sorted_at(t, key@, val@, p as int);
    }
    if p < table.len() && chars_eq(chars_of(table[p].0.as_str()).as_slice(), kc.as_slice()) {
        table.set(p, (key, val));
        assert(table_view(table@) =~= t.update(p as int, (table@[p as int].0@, table@[p as int].1@)));
    } else {
        table.insert(p, (key, val));
        assert(table_view(table@) =~= t.insert(p as int, (table@[p as int].0@, table@[p as int].1@)));
    }
}

/// Formats the import list of a document whose children are `siblings`:
/// each import statement among them with its comments, keyed by its URI and
/// names; the imports are written sorted by key, and of imports with the
/// same key only the last one is written.
pub fn format_imports(siblings: &[SyntaxElement]) -> (s: String)
    requires
        trivia_well_formed(siblings@),
        forall|i: int|
            0 <= i < siblings@.len() && (#[trigger] siblings@[i]).spec_kind()
                == SyntaxKind::ImportStatementNode ==> listed_import_well_formed(siblings@, i),
    ensures
        s@ == imports_text(siblings@),
{
    let mut table: Vec<(String, String)> = Vec::new();
    let mut i: usize = 0;
    while i < siblings.len()
        invariant
            i <= siblings@.len(),
            forall|i: int|
                0 <= i < siblings@.len() && (#[trigger] siblings@[i]).spec_kind()
                    == SyntaxKind::ImportStatementNode ==> listed_import_well_formed(siblings@, i),
            table_view(table@) == import_table(siblings@, i as int),
        decreases siblings@.len() - i,
    {
        if siblings[i].kind() == SyntaxKind::ImportStatementNode {
            let (key, val) = import_entry_text(siblings, i);
            put_entry(&mut table, key, val);
        }
        i = i + 1;
    }
    let ghost t = table_view(table@);
    let mut s = String::new();
    let mut j: usize = 0;
    proof {
        reveal_strlit("");
    }
    while j < table.len()
        invariant
            j <= table@.len(),
            t == table_view(table@),
            s@ == table_text(t.take(j as int)),
        decreases table@.len() - j,
    {
        assert(t.take(j + 1int).drop_last() =~= t.take(j as int));
        assert(t[j as int].1 == table@[j as int].1@);
        s.append(table[j].1.as_str());
        j = j + 1;
    }
    assert(t.take(j as int) =~= t);
    s
}

/// Whether the keys of `t` are strictly increasing.
pub open spec fn keys_sorted(t: Seq<(Seq<char>, Seq<char>)>) -> bool {
    forall|i: int, j: int| 0 <= i < j < t.len() ==> text_lt(#[trigger] t[i].0, #[trigger] t[j].0)
}

/// Putting an entry in its place keeps the keys strictly increasing, and
/// adds no key but its own.
proof fn lemma_put_sorted_sorted(t: Seq<(Seq<char>, Seq<char>)>, k: Seq<char>, v: Seq<char>)
    requires
        keys_sorted(t),
    ensures
        keys_sorted(put_sorted(t, k, v)),
        forall|i: int|
            0 <= i < put_sorted(t, k, v).len() ==> (#[trigger] put_sorted(t, k, v)[i]).0 == k
                || exists|j: int| 0 <= j < t.len() && t[j].0 == put_sorted(t, k, v)[i].0,
    decreases t.len(),
{
    if t.len() > 0 {
        let rest = t.drop_first();
        assert forall|i: int, j: int| 0 <= i < j < rest.len() implies text_lt(
            #[trigger] rest[i].0,
            #[trigger] rest[j].0,
        ) by {
            assert(rest[i] == t[i + 1] && rest[j] == t[j + 1]);
        }
        let r = put_sorted(t, k, v);
        if text_lt(t[0].0, k) {
            lemma_put_sorted_sorted(rest, k, v);
            let pr = put_sorted(rest, k, v);
            assert(r == seq![t[0]] + pr);
            assert forall|i: int| 0 <= i < pr.len() implies text_lt(t[0].0, #[trigger] pr[i].0) by {
                if pr[i].0 != k {
                    let j = choose|j: int| 0 <= j < rest.len() && rest[j].0 == pr[i].0;
                    assert(rest[j] == t[j + 1]);
                }
            }
            assert forall|i: int, j: int| 0 <= i < j < r.len() implies text_lt(
                #[trigger] r[i].0,
                #[trigger] r[j].0,
            ) by {
                if i == 0 {
                    assert(r[j] == pr[j - 1]);
                } else {
                    assert(r[i] == pr[i - 1] && r[j] == pr[j - 1]);
                }
            }
            assert forall|i: int| 0 <= i < r.len() implies (#[trigger] r[i]).0 == k || exists|j: int|
                0 <= j < t.len() && t[j].0 == r[i].0 by {
                if i == 0 {
                    assert(t[0].0 == r[0].0);
                } else {
                    assert(r[i] == pr[i - 1]);
                    if pr[i - 1].0 != k {
                        let j = choose|j: int| 0 <= j < rest.len() && rest[j].0 == pr[i - 1].0;
                        assert(t[j + 1].0 == r[i].0);
                    }
                }
            }
        } else if t[0].0 == k {
            assert forall|i: int, j: int| 0 <= i < j < r.len() implies text_lt(
                #[trigger] r[i].0,
                #[trigger] r[j].0,
            ) by {
                assert(r[j] == t[j]);
                if i > 0 {
                    assert(r[i] == t[i]);
                }
            }
            assert forall|i: int| 0 <= i < r.len() implies (#[trigger] r[i]).0 == k || exists|j: int|
                0 <= j < t.len() && t[j].0 == r[i].0 by {
                if i > 0 {
                    assert(r[i] == t[i]);
                }
            }
        } else {
            lemma_text_order(t[0].0, k, k);
            assert forall|i: int, j: int| 0 <= i < j < r.len() implies text_lt(
                #[trigger] r[i].0,
                #[trigger] r[j].0,
            ) by {
                assert(r[j] == t[j - 1]);
                if i == 0 {
                    if j > 1 {
                        lemma_text_order(k, t[0].0, t[j - 1].0);
                    }
                } else {
                    assert(r[i] == t[i - 1]);
                }
            }
            assert forall|i: int| 0 <= i < r.len() implies (#[trigger] r[i]).0 == k || exists|j: int|
                0 <= j < t.len() && t[j].0 == r[i].0 by {
                if i > 0 {
                    assert(r[i] == t[i - 1]);
                }
            }
        }
    }
}

/// An import list comes out sorted: the keys of the imports written are
/// strictly increasing, so no key is written twice.
pub proof fn lemma_import_list_sorted(sibs: Seq<SyntaxElement>, n: int)
    ensures
        keys_sorted(import_table(sibs, n)),
    decreases n,
{
    if n > 0 && n <= sibs.len() {
        lemma_import_list_sorted(sibs, n - 1);
        if sibs[n - 1].spec_kind() == SyntaxKind::ImportStatementNode {
            let (k, v) = import_entry(sibs, n - 1);
            lemma_put_sorted_sorted(import_table(sibs, n - 1), k, v);
        }
    }
}

} // verus!
