//! A GitHub repository of WDL files, pinned to a commit.
use vstd::prelude::*;
use vstd::string::StringSliceAdditionalSpecFns;
use vstd::utf8::{encode_utf8, is_ascii_chars, is_ascii_chars_encode_utf8};

use crate::engine::path::{join, spec_join};
use crate::text::{chars_of, has_prefix, has_suffix, push_char, push_chars, string_of};

verus! {

/// The number of bytes in a commit hash.
pub const HASH_BYTES: usize = 20;

/// The number of hexadecimal digits that spell a commit hash.
pub const HASH_DIGITS: usize = 40;

/// The lowercase hexadecimal digit for `d < 16`.
pub open spec fn hex_digit(d: nat) -> char {
    if d < 10 {
        (('0' as nat) + d) as char
    } else {
        (('a' as nat) + d - 10) as char
    }
}

/// Two lowercase hexadecimal digits for each byte.
pub open spec fn lower_hex(bytes: Seq<u8>) -> Seq<char>
    decreases bytes.len(),
{
    if bytes.len() == 0 {
        Seq::empty()
    } else {
        lower_hex(bytes.drop_last()) + seq![
            hex_digit(bytes.last() as nat / 16),
            hex_digit(bytes.last() as nat % 16),
        ]
    }
}

/// Whether `b` is an ASCII hexadecimal digit, in either case.
pub open spec fn is_hex_byte(b: u8) -> bool {
    (48 <= b <= 57) || (97 <= b <= 102) || (65 <= b <= 70)
}

/// The value of the hexadecimal digit `b`.
pub open spec fn hex_value(b: u8) -> nat {
    if 48 <= b <= 57 {
        (b - 48) as nat
    } else if 97 <= b <= 102 {
        (b - 87) as nat
    } else {
        (b - 55) as nat
    }
}

/// The byte spelled by the digit pair at `2 * i` in `src`.
pub open spec fn decoded_byte(src: Seq<u8>, i: int) -> nat {
    hex_value(src[2 * i]) * 16 + hex_value(src[2 * i + 1])
}

/// The digits of [`lower_hex`] are two per byte, high digit first.
pub proof fn lemma_lower_hex(bytes: Seq<u8>)
    ensures
        lower_hex(bytes).len() == 2 * bytes.len(),
        forall|i: int|
            0 <= i < bytes.len() ==> #[trigger] lower_hex(bytes)[2 * i] == hex_digit(bytes[i] as nat / 16)
                && lower_hex(bytes)[2 * i + 1] == hex_digit(bytes[i] as nat % 16),
    decreases bytes.len(),
{
    if bytes.len() > 0 {
        lemma_lower_hex(bytes.drop_last());
        assert forall|i: int| 0 <= i < bytes.len() implies #[trigger] lower_hex(bytes)[2 * i] == hex_digit(
            bytes[i] as nat / 16,
        ) && lower_hex(bytes)[2 * i + 1] == hex_digit(bytes[i] as nat % 16) by {
            if i < bytes.len() - 1 {
                assert(bytes.drop_last()[i] == bytes[i]);
            }
        }
    }
}

/// Reading back the lowercase hexadecimal spelling of bytes gives the same
/// bytes: every digit is a hexadecimal digit, its UTF-8 encoding has two
/// bytes per byte, and each digit pair decodes to the byte it spells.
pub proof fn lemma_hex_round_trip(bytes: Seq<u8>)
    ensures
        encode_utf8(lower_hex(bytes)).len() == 2 * bytes.len(),
        forall|i: int|
            0 <= i < 2 * bytes.len() ==> #[trigger] is_hex_byte(encode_utf8(lower_hex(bytes))[i]),
        forall|i: int|
            0 <= i < bytes.len() ==> #[trigger] decoded_byte(encode_utf8(lower_hex(bytes)), i)
                == bytes[i],
{
    let hex = lower_hex(bytes);
    lemma_lower_hex(bytes);
    assert forall|i: int| 0 <= i < hex.len() implies '\0' <= #[trigger] hex[i] <= '\u{7f}' by {
        let j = i / 2;
        assert(i == 2 * j || i == 2 * j + 1);
        assert(hex[2 * j] == hex_digit(bytes[j] as nat / 16));
    }
    assert(is_ascii_chars(hex));
    is_ascii_chars_encode_utf8(hex);
    let enc = encode_utf8(hex);
    assert forall|i: int| 0 <= i < 2 * bytes.len() implies #[trigger] is_hex_byte(enc[i]) by {
        let j = i / 2;
        assert(i == 2 * j || i == 2 * j + 1);
        assert(hex[2 * j] == hex_digit(bytes[j] as nat / 16));
        assert(enc[i] == hex[i] as u8);
    }
    assert forall|i: int| 0 <= i < bytes.len() implies #[trigger] decoded_byte(enc, i) == bytes[i] by {
        assert(hex[2 * i] == hex_digit(bytes[i] as nat / 16));
        assert(enc[2 * i] == hex[2 * i] as u8);
        assert(enc[2 * i + 1] == hex[2 * i + 1] as u8);
    }
}

/// The error type of `faster_hex`.
#[verifier::external_type_specification]
#[verifier::external_body]
pub struct ExHexError(faster_hex::Error);

/// Calls `faster_hex::hex_decode`, which decodes the digit pairs of `src`
/// into the bytes of `dst`.
///
/// As its source shows, it succeeds exactly when doubling the length of
/// `dst` does not overflow, `src` holds at least twice as many bytes as
/// `dst`, has an even length, and holds only hexadecimal digits (either
/// case); it then writes byte `i` of `dst` from digits `2 * i` and
/// `2 * i + 1`, and on failure it writes nothing.  Which error it returns is
/// not stated.
#[verifier::external_body]
fn hex_decode(src: &[u8], dst: &mut Vec<u8>) -> (r: Result<(), faster_hex::Error>)
    ensures
        final(dst)@.len() == old(dst)@.len(),
        r is Ok <==> (old(dst)@.len() * 2 <= usize::MAX && src@.len() >= old(dst)@.len() * 2
            && src@.len() % 2 == 0 && forall|i: int|
            0 <= i < src@.len() ==> #[trigger] is_hex_byte(src@[i])),
        r is Ok ==> forall|i: int|
            0 <= i < old(dst)@.len() ==> #[trigger] final(dst)@[i] == decoded_byte(src@, i),
        r is Err ==> final(dst)@ == old(dst)@,
{
    faster_hex::hex_decode(src, dst.as_mut_slice())
}

/// Calls `faster_hex::hex_string`, which spells each byte of `src` as two
/// lowercase hexadecimal digits.
#[verifier::external_body]
fn hex_string(src: &[u8]) -> (s: String)
    ensures
        s@ == lower_hex(src@),
{
    faster_hex::hex_string(src)
}

/// Why a commit hash could not be read.
#[derive(Debug, Clone, Copy, PartialEq, Eq)]
pub enum RawHashError {
    /// The text is not 40 characters long.
    WrongLength,
    /// The text holds a character that is not a hexadecimal digit.
    NotHex,
}

impl RawHashError {
    /// Describes the error.
    pub fn message(&self) -> (m: &'static str)
        ensures
            *self == RawHashError::WrongLength ==> m@ == "a commit hash must have 40 characters"@,
            *self == RawHashError::NotHex ==> m@ == "Invalid character"@,
    {
        match self {
            RawHashError::WrongLength => "a commit hash must have 40 characters",
            RawHashError::NotHex => "Invalid character",
        }
    }
}

/// The 20 bytes of a git commit hash.
#[derive(Clone, Debug, PartialEq, Eq, Hash, PartialOrd, Ord)]
pub struct RawHash(pub [u8; 20]);

/// The lowercase hexadecimal digit for `d < 16`.
fn hex_char(d: u8) -> (c: char)
    requires
        d < 16,
    ensures
        c == hex_digit(d as nat),
{
    if d < 10 {
        ((48 + d) as char)
    } else {
        ((87 + d) as char)
    }
}

impl RawHash {
    /// The bytes of the hash.
    pub open spec fn bytes(&self) -> Seq<u8> {
        self.0@
    }

    /// Spells the hash as 40 lowercase hexadecimal digits, two per byte.
    pub fn to_string(&self) -> (s: String)
        ensures
            s@ == lower_hex(self.bytes()),
    {
        let mut s = String::new();
        let mut i: usize = 0;
        while i < 20
            invariant
                i <= 20,
                self.0@.len() == 20,
                s@ == lower_hex(self.0@.take(i as int)),
            decreases 20 - i,
        {
            let b = self.0[i];
            push_char(&mut s, hex_char(b / 16));
            push_char(&mut s, hex_char(b % 16));
            proof {
                assert(self.0@.take(i + 1).drop_last() =~= self.0@.take(i as int));
            }
            i = i + 1;
            assert(s@ =~= lower_hex(self.0@.take(i as int)));
        }
        assert(self.0@.take(20) =~= self.0@);
        s
    }

    /// Spells the hash with `faster_hex`, as serialization does.
    pub fn to_hex(&self) -> (s: String)
        ensures
            s@ == lower_hex(self.bytes()),
    {
        hex_string(self.0.as_slice())
    }

    /// Reads a hash from its 40 hexadecimal digits (either case).
    pub fn from_hex(s: &str) -> (r: Result<RawHash, RawHashError>)
        ensures
            s.spec_bytes().len() != 40 ==> r == Err::<RawHash, RawHashError>(
                RawHashError::WrongLength,
            ),
            s.spec_bytes().len() == 40 ==> (r is Ok <==> forall|i: int|
                0 <= i < 40 ==> #[trigger] is_hex_byte(s.spec_bytes()[i])),
            s.spec_bytes().len() == 40 && r is Err ==> r == Err::<RawHash, RawHashError>(
                RawHashError::NotHex,
            ),
            r matches Ok(h) ==> h.bytes().len() == 20 && forall|i: int|
                0 <= i < 20 ==> #[trigger] h.bytes()[i] == decoded_byte(s.spec_bytes(), i),
    {
        let src = s.as_bytes();
        if src.len() != 40 {
            return Err(RawHashError::WrongLength);
        }
        let mut buf: Vec<u8> = Vec::new();
        let mut i: usize = 0;
        while i < 20
            invariant
                i <= 20,
                buf@.len() == i,
            decreases 20 - i,
        {
            buf.push(0);
            i = i + 1;
        }
        match hex_decode(src, &mut buf) {
            Ok(()) => {
                let mut hash = [0u8; 20];
                let mut j: usize = 0;
                while j < 20
                    invariant
                        j <= 20,
                        buf@.len() == 20,
                        hash@.len() == 20,
                        forall|t: int| 0 <= t < j ==> hash@[t] == buf@[t],
                    decreases 20 - j,
                {
                    hash[j] = buf[j];
                    j = j + 1;
                }
                Ok(RawHash(hash))
            },
            Err(_) => Err(RawHashError::NotHex),
        }
    }
}

/// The number of times `c` occurs in `s`.
pub open spec fn count_char(s: Seq<char>, c: char) -> nat
    decreases s.len(),
{
    if s.len() == 0 {
        0
    } else {
        count_char(s.drop_last(), c) + if s.last() == c { 1nat } else { 0nat }
    }
}

/// Counting in a concatenation adds the counts.
pub proof fn lemma_count_concat(a: Seq<char>, b: Seq<char>, c: char)
    ensures
        count_char(a + b, c) == count_char(a, c) + count_char(b, c),
    decreases b.len(),
{
    if b.len() > 0 {
        lemma_count_concat(a, b.drop_last(), c);
        assert((a + b).drop_last() =~= a + b.drop_last());
    } else {
        assert(a + b =~= a);
    }
}

/// A text holds `c` exactly when its count of `c` is not zero.
pub proof fn lemma_count_zero(a: Seq<char>, c: char)
    ensures
        count_char(a, c) == 0 <==> !a.contains(c),
    decreases a.len(),
{
    if a.len() > 0 {
        lemma_count_zero(a.drop_last(), c);
        if a.drop_last().contains(c) {
            let i = choose|i: int| 0 <= i < a.drop_last().len() && a.drop_last()[i] == c;
            assert(a[i] == c);
        }
        if a.contains(c) && a.last() != c {
            let i = choose|i: int| 0 <= i < a.len() && a[i] == c;
            assert(a.drop_last()[i] == c);
        }
    }
}

/// Reading back the text of an identifier whose parts hold no `/` gives the
/// same parts: the text holds exactly one `/`, and the only way to split it
/// around a `/` is into those parts.
pub proof fn lemma_identifier_round_trip(org: Seq<char>, name: Seq<char>)
    requires
        !org.contains('/'),
        !name.contains('/'),
    ensures
        count_char(org + "/"@ + name, '/') == 1,
        forall|o: Seq<char>, n: Seq<char>|
            o + "/"@ + n == org + "/"@ + name ==> o == org && n == name,
{
    reveal_strlit("/");
    let sl = "/"@;
    lemma_count_zero(org, '/');
    lemma_count_zero(name, '/');
    lemma_count_concat(org, sl, '/');
    lemma_count_concat(org + sl, name, '/');
    assert(count_char(sl, '/') == 1) by {
        assert(sl.len() == 1 && sl[0] == '/');
        assert(sl.drop_last() =~= Seq::<char>::empty());
        assert(count_char(sl.drop_last(), '/') == 0);
        assert(sl.last() == '/');
    }
    let s = org + sl + name;
    assert forall|o: Seq<char>, n: Seq<char>| o + sl + n == s implies o == org && n == name by {
        lemma_count_concat(o, sl, '/');
        lemma_count_concat(o + sl, n, '/');
        lemma_count_zero(o, '/');
        if o.len() < org.len() {
            assert(s[o.len() as int] == '/');
            assert(org[o.len() as int] == '/');
        } else if o.len() > org.len() {
            assert(s[org.len() as int] == '/');
            assert(o[org.len() as int] == '/');
        }
        assert(o =~= s.take(o.len() as int));
        assert(org =~= s.take(org.len() as int));
        assert(n =~= s.skip(o.len() as int + 1));
        assert(name =~= s.skip(org.len() as int + 1));
    }
}

/// The name of a repository: an organization and a repository name.
#[derive(Debug, Clone)]
pub struct Identifier {
    /// The organization (or user) that owns the repository.
    organization: String,
    /// The name of the repository.
    name: String,
}

/// Why a repository identifier could not be read.
#[derive(Debug, Clone)]
pub enum IdentifierError {
    /// The text is not of the form `organization/name`.
    InvalidFormat(String),
}

impl Identifier {
    /// The organization.
    pub closed spec fn spec_organization(&self) -> Seq<char> {
        self.organization@
    }

    /// The repository name.
    pub closed spec fn spec_name(&self) -> Seq<char> {
        self.name@
    }

    /// Creates an identifier from its parts.
    pub fn new(organization: String, name: String) -> (id: Self)
        ensures
            id.spec_organization() == organization@,
            id.spec_name() == name@,
    {
        Identifier { organization, name }
    }

    /// Gets the organization.
    pub fn organization(&self) -> (r: &str)
        ensures
            r@ == self.spec_organization(),
    {
        self.organization.as_str()
    }

    /// Gets the repository name.
    pub fn name(&self) -> (r: &str)
        ensures
            r@ == self.spec_name(),
    {
        self.name.as_str()
    }

    /// The identifier as text: `organization/name`.
    pub fn to_string(&self) -> (s: String)
        ensures
            s@ == self.spec_organization() + "/"@ + self.spec_name(),
    {
        let mut s = self.organization.clone();
        push_char(&mut s, '/');
        let n = chars_of(self.name.as_str());
        push_chars(&mut s, n.as_slice());
        proof {
            reveal_strlit("/");
        }
        assert(s@ =~= self.spec_organization() + "/"@ + self.spec_name());
        s
    }

    /// Reads an identifier of the form `organization/name`: the text must
    /// hold exactly one `/`.
    pub fn parse(s: &str) -> (r: Result<Identifier, IdentifierError>)
        ensures
            r is Ok <==> count_char(s@, '/') == 1,
            r matches Ok(id) ==> id.spec_organization() + "/"@ + id.spec_name() == s@,
            r matches Err(IdentifierError::InvalidFormat(t)) ==> t@ == s@,
    {
        proof {
            reveal_strlit("/");
        }
        let chars = chars_of(s);
        let mut slash: Option<usize> = None;
        let mut count: usize = 0;
        let mut i: usize = 0;
        while i < chars.len()
            invariant
                i <= chars@.len(),
                chars@ == s@,
                count == count_char(chars@.take(i as int), '/'),
                count <= i,
                count == 0 <==> slash is None,
                count == 0 ==> forall|t: int| 0 <= t < i ==> chars@[t] != '/',
                slash matches Some(k) ==> k < i && chars@[k as int] == '/' && forall|t: int|
                    0 <= t < k ==> chars@[t] != '/',
            decreases chars@.len() - i,
        {
            proof {
                assert(chars@.take(i + 1).drop_last() =~= chars@.take(i as int));
            }
            if chars[i] == '/' {
                if count == 0 {
                    slash = Some(i);
                }
                count = count + 1;
            }
            i = i + 1;
        }
        assert(chars@.take(i as int) =~= chars@);
        if count != 1 {
            return Err(IdentifierError::InvalidFormat(string_of(chars.as_slice())));
        }
        let k = match slash {
            Some(k) => k,
            None => 0,
        };
        let mut org: Vec<char> = Vec::new();
        let mut name: Vec<char> = Vec::new();
        let mut j: usize = 0;
        while j < chars.len()
            invariant
                j <= chars@.len(),
                k < chars@.len(),
                org@ == chars@.take(if j <= k { j as int } else { k as int }),
                j > k ==> name@ == chars@.subrange(k + 1, j as int),
                j <= k ==> name@.len() == 0,
            decreases chars@.len() - j,
        {
            if j < k {
                org.push(chars[j]);
                assert(org@ =~= chars@.take(j + 1));
            } else if j > k {
                name.push(chars[j]);
                assert(name@ =~= chars@.subrange(k + 1, j + 1));
            }
            j = j + 1;
            assert(org@ =~= chars@.take(if j <= k { j as int } else { k as int }));
        }
        let id = Identifier { organization: string_of(org.as_slice()), name: string_of(name.as_slice()) };
        assert(id.organization@ + "/"@ + id.name@ =~= s@);
        Ok(id)
    }
}

/// The URL from which the repository `org/name` is cloned.
pub open spec fn clone_url_text(org: Seq<char>, name: Seq<char>) -> Seq<char> {
    "https://github.com/"@ + org + "/"@ + name + ".git"@
}

/// A GitHub repository of WDL files.
#[derive(Debug, Clone)]
pub struct Repository {
    /// The repository's identifier.
    identifier: Identifier,
    /// The commit hash the repository is pinned to.
    commit_hash: Option<RawHash>,
    /// Documents to leave out of the repository.
    filters: Vec<String>,
}

impl Repository {
    /// The repository's identifier.
    pub closed spec fn spec_identifier(&self) -> Identifier {
        self.identifier
    }

    /// The pinned commit hash.
    pub closed spec fn spec_commit_hash(&self) -> Option<RawHash> {
        self.commit_hash
    }

    /// The filters.
    pub closed spec fn spec_filters(&self) -> Seq<String> {
        self.filters@
    }

    /// A repository pinned to the commit `commit_hash`, with no filters.
    ///
    /// The commit is the one that was asked for, or the head of a fresh
    /// clone when none was; finding it is the caller's part.
    pub fn new(identifier: Identifier, commit_hash: RawHash) -> (r: Self)
        ensures
            r.spec_identifier() == identifier,
            r.spec_commit_hash() == Some(commit_hash),
            r.spec_filters().len() == 0,
    {
        Repository { identifier, commit_hash: Some(commit_hash), filters: Vec::new() }
    }

    /// A repository as read from a configuration file.
    pub fn from_parts(identifier: Identifier, commit_hash: Option<RawHash>, filters: Vec<String>) -> (r: Self)
        ensures
            r.spec_identifier() == identifier,
            r.spec_commit_hash() == commit_hash,
            r.spec_filters() == filters@,
    {
        Repository { identifier, commit_hash, filters }
    }

    /// Gets the repository identifier.
    pub fn identifier(&self) -> (r: &Identifier)
        ensures
            *r == self.spec_identifier(),
    {
        &self.identifier
    }

    /// Gets the commit hash.
    pub fn commit_hash(&self) -> (r: &Option<RawHash>)
        ensures
            *r == self.spec_commit_hash(),
    {
        &self.commit_hash
    }

    /// Gets the file path filters for the repository.
    pub fn filters(&self) -> (r: &[String])
        ensures
            r@ == self.spec_filters(),
    {
        self.filters.as_slice()
    }

    /// Pins the repository to the latest commit, `commit_hash`, found by the
    /// caller in a fresh clone.
    pub fn update(&mut self, commit_hash: RawHash)
        ensures
            final(self).spec_identifier() == old(self).spec_identifier(),
            final(self).spec_filters() == old(self).spec_filters(),
            final(self).spec_commit_hash() == Some(commit_hash),
    {
        self.commit_hash = Some(commit_hash);
    }

    /// The URL from which the repository is cloned.
    pub fn clone_url(&self) -> (s: String)
        ensures
            s@ == clone_url_text(
                self.spec_identifier().spec_organization(),
                self.spec_identifier().spec_name(),
            ),
    {
        proof {
            reveal_strlit("https://github.com/");
            reveal_strlit("/");
            reveal_strlit(".git");
        }
        let mut s = "https://github.com/".to_owned();
        let org = chars_of(self.identifier.organization());
        push_chars(&mut s, org.as_slice());
        push_char(&mut s, '/');
        let name = chars_of(self.identifier.name());
        push_chars(&mut s, name.as_slice());
        let suffix = chars_of(".git");
        push_chars(&mut s, suffix.as_slice());
        assert(s@ =~= clone_url_text(
            self.spec_identifier().spec_organization(),
            self.spec_identifier().spec_name(),
        ));
        s
    }

    /// The directory under `root` into which the repository is cloned:
    /// `root/organization/name`.
    pub fn checkout_root(&self, root: &str) -> (s: String)
        ensures
            s@ == spec_join(
                spec_join(root@, self.spec_identifier().spec_organization()),
                self.spec_identifier().spec_name(),
            ),
    {
        let a = join(root, self.identifier.organization());
        join(a.as_str(), self.identifier.name())
    }
}

/// `s` with every backslash replaced by a slash.
pub open spec fn forward_slashes(s: Seq<char>) -> Seq<char> {
    s.map_values(|c: char| if c == '\\' { '/' } else { c })
}

/// The key under which a file of a checkout is kept: its path with the
/// checkout root taken off the front and backslashes made slashes, for
/// files whose path ends in `.wdl`; other files are not kept.
pub fn wdl_file_key(path: &str, repo_root: &str) -> (r: Option<String>)
    requires
        has_suffix(path@, ".wdl"@) ==> has_prefix(path@, repo_root@),
    ensures
        r is Some <==> has_suffix(path@, ".wdl"@),
        r matches Some(k) ==> k@ == forward_slashes(path@.skip(repo_root@.len() as int)),
{
    proof {
        reveal_strlit(".wdl");
    }
    let p = chars_of(path);
    let ext = chars_of(".wdl");
    if !crate::text::ends_with(p.as_slice(), ext.as_slice()) {
        return None;
    }
    let root = chars_of(repo_root);
    let mut key = String::new();
    let mut i: usize = root.len();
    while i < p.len()
        invariant
            root@.len() <= i <= p@.len(),
            root@ == repo_root@,
            p@ == path@,
            p@.len() >= root@.len(),
            key@ == forward_slashes(p@.subrange(root@.len() as int, i as int)),
        decreases p@.len() - i,
    {
        let c = p[i];
        push_char(&mut key, if c == '\\' { '/' } else { c });
        i = i + 1;
        assert(key@ =~= forward_slashes(p@.subrange(root@.len() as int, i as int)));
    }
    assert(p@.subrange(root@.len() as int, i as int) =~= path@.skip(repo_root@.len() as int));
    Some(key)
}

} // verus!
