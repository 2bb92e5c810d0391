//! The component manifest: `KEY=VALUE` lines, parsed from text and embedded in a bundle.
use vstd::prelude::*;
use vstd::string::StrSliceExecFns;
use vstd::string::StringExecFns;
use vstd::utf8::encode_utf8;

verus! {

/// The directives a manifest line can hold.
#[derive(Clone, Copy, Debug, PartialEq, Eq)]
pub enum Key {
    Name,
    Version,
    CapReq,
    CapExp,
    Sandbox,
}

/// The text that starts a line holding the directive `k`.
pub open spec fn key_text(k: Key) -> Seq<char> {
    match k {
        Key::Name => seq!['N', 'A', 'M', 'E', '='],
        Key::Version => seq!['V', 'E', 'R', 'S', 'I', 'O', 'N', '='],
        Key::CapReq => seq!['C', 'A', 'P', '_', 'R', 'E', 'Q', '='],
        Key::CapExp => seq!['C', 'A', 'P', '_', 'E', 'X', 'P', '='],
        Key::Sandbox => seq!['S', 'A', 'N', 'D', 'B', 'O', 'X', '='],
    }
}

/// The text that starts a line holding the directive `k`.
pub fn key_str(k: Key) -> (s: &'static str)
    ensures
        s@ == key_text(k),
{
    match k {
        Key::Name => {
            proof {
                reveal_strlit("NAME=");
            }
            "NAME="
        },
        Key::Version => {
            proof {
                reveal_strlit("VERSION=");
            }
            "VERSION="
        },
        Key::CapReq => {
            proof {
                reveal_strlit("CAP_REQ=");
            }
            "CAP_REQ="
        },
        Key::CapExp => {
            proof {
                reveal_strlit("CAP_EXP=");
            }
            "CAP_EXP="
        },
        Key::Sandbox => {
            proof {
                reveal_strlit("SANDBOX=");
            }
            "SANDBOX="
        },
    }
}

/// Component metadata embedded in a bundle.
#[derive(Debug)]
pub struct Manifest {
    pub name: String,
    pub version: String,
    pub caps_req: Vec<String>,
    pub caps_exp: Vec<String>,
    pub sandbox: Vec<String>,
}

/// The mathematical value of a [`Manifest`].
pub ghost struct ManifestModel {
    pub name: Seq<char>,
    pub version: Seq<char>,
    pub caps_req: Seq<Seq<char>>,
    pub caps_exp: Seq<Seq<char>>,
    pub sandbox: Seq<Seq<char>>,
}

pub open spec fn strings_view(v: Seq<String>) -> Seq<Seq<char>> {
    v.map_values(|s: String| s@)
}

impl View for Manifest {
    type V = ManifestModel;

    open spec fn view(&self) -> ManifestModel {
        ManifestModel {
            name: self.name@,
            version: self.version@,
            caps_req: strings_view(self.caps_req@),
            caps_exp: strings_view(self.caps_exp@),
            sandbox: strings_view(self.sandbox@),
        }
    }
}

/// The manifest with every field empty.
pub open spec fn empty_model() -> ManifestModel {
    ManifestModel {
        name: Seq::empty(),
        version: Seq::empty(),
        caps_req: Seq::empty(),
        caps_exp: Seq::empty(),
        sandbox: Seq::empty(),
    }
}

impl Default for Manifest {
    fn default() -> (m: Self)
        ensures
            m@ == empty_model(),
    {
        let m = Manifest {
            name: String::new(),
            version: String::new(),
            caps_req: Vec::new(),
            caps_exp: Vec::new(),
            sandbox: Vec::new(),
        };
        assert(m@.caps_req =~= Seq::<Seq<char>>::empty());
        assert(m@.caps_exp =~= Seq::<Seq<char>>::empty());
        assert(m@.sandbox =~= Seq::<Seq<char>>::empty());
        m
    }
}

/// The Unicode `White_Space` property, which `char::is_whitespace` and `str::trim` go by.
pub open spec fn is_ws(c: char) -> bool {
    let u = c as u32;
    ||| 0x09 <= u <= 0x0d
    ||| u == 0x20
    ||| u == 0x85
    ||| u == 0xa0
    ||| u == 0x1680
    ||| 0x2000 <= u <= 0x200a
    ||| u == 0x2028
    ||| u == 0x2029
    ||| u == 0x202f
    ||| u == 0x205f
    ||| u == 0x3000
}

/// Whether `c` is Unicode white space.
pub fn is_whitespace(c: char) -> (r: bool)
    ensures
        r == is_ws(c),
{
    let u = c as u32;
    (0x09 <= u && u <= 0x0d) || u == 0x20 || u == 0x85 || u == 0xa0 || u == 0x1680 || (0x2000
        <= u && u <= 0x200a) || u == 0x2028 || u == 0x2029 || u == 0x202f || u == 0x205f || u
        == 0x3000
}

pub open spec fn trim_start(s: Seq<char>) -> Seq<char>
    decreases s.len(),
{
    if s.len() > 0 && is_ws(s[0]) {
        trim_start(s.drop_first())
    } else {
        s
    }
}

pub open spec fn trim_end(s: Seq<char>) -> Seq<char>
    decreases s.len(),
{
    if s.len() > 0 && is_ws(s.last()) {
        trim_end(s.drop_last())
    } else {
        s
    }
}

/// `s` without its leading and trailing white space.
pub open spec fn trim(s: Seq<char>) -> Seq<char> {
    trim_end(trim_start(s))
}

pub open spec fn has_prefix(s: Seq<char>, p: Seq<char>) -> bool {
    p.len() <= s.len() && s.take(p.len() as int) == p
}

/// The field that the directive `k` sets, or the list it adds to, given the value `v`.
pub open spec fn apply_key(m: ManifestModel, k: Key, v: Seq<char>) -> ManifestModel {
    match k {
        Key::Name => ManifestModel { name: v, ..m },
        Key::Version => ManifestModel { version: v, ..m },
        Key::CapReq => ManifestModel { caps_req: m.caps_req.push(v), ..m },
        Key::CapExp => ManifestModel { caps_exp: m.caps_exp.push(v), ..m },
        Key::Sandbox => ManifestModel { sandbox: m.sandbox.push(v), ..m },
    }
}

/// Applies the directive `k` if the line starts with it.
pub open spec fn apply_if(m: ManifestModel, line: Seq<char>, k: Key) -> ManifestModel {
    if has_prefix(line, key_text(k)) {
        apply_key(m, k, line.skip(key_text(k).len() as int))
    } else {
        m
    }
}

/// One trimmed line: blank lines and `#` comments change nothing.
pub open spec fn apply_line(m: ManifestModel, line: Seq<char>) -> ManifestModel {
    if line.len() == 0 || line[0] == '#' {
        m
    } else {
        apply_if(
            apply_if(
                apply_if(apply_if(apply_if(m, line, Key::Name), line, Key::Version), line, Key::CapReq),
                line,
                Key::CapExp,
            ),
            line,
            Key::Sandbox,
        )
    }
}

/// The length of the first line of `t`, without its `'\n'`.
pub open spec fn line_len(t: Seq<char>) -> nat
    decreases t.len(),
{
    if t.len() == 0 {
        0
    } else if t[0] == '\n' {
        0
    } else {
        1 + line_len(t.drop_first())
    }
}

/// Applies the lines of `t` in turn to `m`.
pub open spec fn parse_from(m: ManifestModel, t: Seq<char>) -> ManifestModel
    decreases t.len(),
{
    let k = line_len(t);
    let m2 = apply_line(m, trim(t.take(k as int)));
    if k >= t.len() {
        m2
    } else {
        parse_from(m2, t.skip((k + 1) as int))
    }
}

/// The manifest that a text describes.
pub open spec fn spec_parse(text: Seq<char>) -> ManifestModel {
    parse_from(empty_model(), text)
}

/// The line that holds the directive `k` with the value `v`.
pub open spec fn entry(k: Key, v: Seq<char>) -> Seq<char> {
    key_text(k) + v + seq!['\n']
}

/// One line per value, in order.
pub open spec fn entries(k: Key, vs: Seq<Seq<char>>) -> Seq<char>
    decreases vs.len(),
{
    if vs.len() == 0 {
        Seq::empty()
    } else {
        entries(k, vs.drop_last()) + entry(k, vs.last())
    }
}

/// A directive line for a single value, or nothing where the value is empty.
pub open spec fn single_entry(k: Key, v: Seq<char>) -> Seq<char> {
    if v.len() == 0 {
        Seq::empty()
    } else {
        entry(k, v)
    }
}

/// The text of a manifest as it is embedded in a bundle.
pub open spec fn spec_serialize_text(m: ManifestModel) -> Seq<char> {
    single_entry(Key::Name, m.name) + single_entry(Key::Version, m.version) + entries(
        Key::CapReq,
        m.caps_req,
    ) + entries(Key::CapExp, m.caps_exp) + entries(Key::Sandbox, m.sandbox)
}

/// The bytes of a manifest as they are embedded in a bundle.
pub open spec fn spec_serialize(m: ManifestModel) -> Seq<u8> {
    encode_utf8(spec_serialize_text(m))
}

/// The characters of `s`, in order.
pub fn chars_of(s: &str) -> (r: Vec<char>)
    ensures
        r@ == s@,
{
    let mut v: Vec<char> = Vec::new();
    for c in it: s.chars()
        invariant
            v@ == it.seq().take(it.index() as int),
    {
        v.push(c);
    }
    assert(v@ =~= s@);
    v
}

proof fn lemma_line_len_step(t: Seq<char>, j: int)
    requires
        0 <= j < t.len(),
        t[j] != '\n',
    ensures
        line_len(t.skip(j)) == 1 + line_len(t.skip(j + 1)),
{
    assert(t.skip(j).drop_first() =~= t.skip(j + 1));
}

proof fn lemma_trim_start_step(s: Seq<char>, a: int, b: int)
    requires
        0 <= a < b <= s.len(),
        is_ws(s[a]),
    ensures
        trim_start(s.subrange(a, b)) == trim_start(s.subrange(a + 1, b)),
{
    assert(s.subrange(a, b).drop_first() =~= s.subrange(a + 1, b));
}

proof fn lemma_trim_end_step(s: Seq<char>, a: int, b: int)
    requires
        0 <= a < b <= s.len(),
        is_ws(s[b - 1]),
    ensures
        trim_end(s.subrange(a, b)) == trim_end(s.subrange(a, b - 1)),
{
    assert(s.subrange(a, b).drop_last() =~= s.subrange(a, b - 1));
}

/// Whether the line `chars[a..b]` starts with the directive `k`.
fn line_has_key(chars: &Vec<char>, a: usize, b: usize, k: Key) -> (r: bool)
    requires
        a <= b <= chars@.len(),
    ensures
        r == has_prefix(chars@.subrange(a as int, b as int), key_text(k)),
{
    let ks = key_str(k);
    let klen = ks.unicode_len();
    if b - a < klen {
        return false;
    }
    let ghost line = chars@.subrange(a as int, b as int);
    let mut i: usize = 0;
    while i < klen
        invariant
            i <= klen,
            klen == ks@.len(),
            klen <= b - a,
            a <= b <= chars@.len(),
            line == chars@.subrange(a as int, b as int),
            ks@ == key_text(k),
            forall|j: int| 0 <= j < i ==> line[j] == ks@[j],
        decreases klen - i,
    {
        if chars[a + i] != ks.get_char(i) {
            assert(line.take(klen as int)[i as int] != key_text(k)[i as int]);
            return false;
        }
        i = i + 1;
    }
    assert(line.take(klen as int) =~= key_text(k));
    true
}

/// Appends the line that holds the directive `k` with the value `v`.
fn push_entry(out: &mut String, k: Key, v: &str)
    ensures
        final(out)@ == old(out)@ + entry(k, v@),
{
    out.append(key_str(k));
    out.append(v);
    proof {
        reveal_strlit("\n");
    }
    out.append("\n");
    assert(out@ =~= old(out)@ + entry(k, v@));
}

/// Appends one line per value of `vs`, in order.
fn push_entries(out: &mut String, k: Key, vs: &Vec<String>)
    ensures
        final(out)@ == old(out)@ + entries(k, strings_view(vs@)),
{
    let ghost all = strings_view(vs@);
    assert(all.take(0) =~= Seq::<Seq<char>>::empty());
    assert(out@ =~= old(out)@ + entries(k, all.take(0)));
    for i in 0..vs.len()
        invariant
            all == strings_view(vs@),
            out@ == old(out)@ + entries(k, all.take(i as int)),
    {
        push_entry(out, k, vs[i].as_str());
        assert(all.take(i + 1).drop_last() =~= all.take(i as int));
        assert(out@ =~= old(out)@ + entries(k, all.take(i + 1)));
    }
    assert(all.take(vs.len() as int) =~= all);
}

impl Manifest {
    /// The manifest as the `KEY=VALUE` lines that a bundle embeds, in UTF-8.
    ///
    /// The name and the version are written only where they are not empty; then come the
    /// required capabilities, the exposed services and the sandbox restrictions, in order.
    pub fn serialize(&self) -> (out: Vec<u8>)
        ensures
            out@ == spec_serialize(self@),
    {
        let mut text = String::new();
        if !self.name.as_str().is_empty() {
            push_entry(&mut text, Key::Name, self.name.as_str());
        }
        let ghost t1 = text@;
        assert(t1 =~= single_entry(Key::Name, self@.name));
        if !self.version.as_str().is_empty() {
            push_entry(&mut text, Key::Version, self.version.as_str());
        }
        assert(text@ =~= t1 + single_entry(Key::Version, self@.version));
        push_entries(&mut text, Key::CapReq, &self.caps_req);
        push_entries(&mut text, Key::CapExp, &self.caps_exp);
        push_entries(&mut text, Key::Sandbox, &self.sandbox);
        assert(text@ =~= spec_serialize_text(self@));
        text.as_str().as_bytes_vec()
    }

    /// Applies the directive `k` if the line `chars[a..b]` (a line of `text`) starts with it.
    fn apply_if_line(&mut self, text: &str, chars: &Vec<char>, a: usize, b: usize, k: Key)
        requires
            chars@ == text@,
            a <= b <= chars@.len(),
        ensures
            final(self)@ == apply_if(old(self)@, chars@.subrange(a as int, b as int), k),
    {
        if line_has_key(chars, a, b, k) {
            let ghost line = chars@.subrange(a as int, b as int);
            let klen = key_str(k).unicode_len();
            let v = String::from_str(text.substring_char(a + klen, b));
            assert(v@ =~= line.skip(key_text(k).len() as int));
            let ghost old_m = self@;
            match k {
                Key::Name => {
                    self.name = v;
                },
                Key::Version => {
                    self.version = v;
                },
                Key::CapReq => {
                    self.caps_req.push(v);
                    assert(self@.caps_req =~= old_m.caps_req.push(line.skip(
                        key_text(k).len() as int,
                    )));
                },
                Key::CapExp => {
                    self.caps_exp.push(v);
                    assert(self@.caps_exp =~= old_m.caps_exp.push(line.skip(
                        key_text(k).len() as int,
                    )));
                },
                Key::Sandbox => {
                    self.sandbox.push(v);
                    assert(self@.sandbox =~= old_m.sandbox.push(line.skip(
                        key_text(k).len() as int,
                    )));
                },
            }
        }
    }

    /// Reads the directives of a manifest text, one per line.
    ///
    /// Lines are trimmed; blank lines and lines that start with `#` are skipped, and so are
    /// lines that hold no known directive. `NAME=` and `VERSION=` set a field (the last one
    /// wins); `CAP_REQ=`, `CAP_EXP=` and `SANDBOX=` add to a list.
    pub fn parse(text: &str) -> (m: Manifest)
        ensures
            m@ == spec_parse(text@),
    {
        let chars = chars_of(text);
        let n = chars.len();
        let mut m = Manifest::default();
        let mut start: usize = 0;
        assert(chars@.skip(0) =~= chars@);
        loop
            invariant
                chars@ == text@,
                n == chars@.len(),
                start <= n,
                spec_parse(text@) == parse_from(m@, chars@.skip(start as int)),
            decreases n - start,
        {
            let ghost t = chars@.skip(start as int);
            let mut j: usize = start;
            while j < n && chars[j] != '\n'
                invariant
                    start <= j <= n,
                    n == chars@.len(),
                    t == chars@.skip(start as int),
                    line_len(t) == (j - start) + line_len(chars@.skip(j as int)),
                decreases n - j,
            {
                proof {
                    lemma_line_len_step(chars@, j as int);
                }
                j = j + 1;
            }
            assert(line_len(chars@.skip(j as int)) == 0);
            assert(t.take(j - start) =~= chars@.subrange(start as int, j as int));
            let mut a: usize = start;
            while a < j && is_whitespace(chars[a])
                invariant
                    start <= a <= j <= n,
                    n == chars@.len(),
                    trim_start(chars@.subrange(start as int, j as int)) == trim_start(
                        chars@.subrange(a as int, j as int),
                    ),
                decreases j - a,
            {
                proof {
                    lemma_trim_start_step(chars@, a as int, j as int);
                }
                a = a + 1;
            }
            assert(trim_start(chars@.subrange(a as int, j as int)) == chars@.subrange(
                a as int,
                j as int,
            ));
            let mut b: usize = j;
            while b > a && is_whitespace(chars[b - 1])
                invariant
                    start <= a <= b <= j <= n,
                    n == chars@.len(),
                    trim_end(chars@.subrange(a as int, j as int)) == trim_end(
                        chars@.subrange(a as int, b as int),
                    ),
                decreases b - a,
            {
                proof {
                    lemma_trim_end_step(chars@, a as int, b as int);
                }
                b = b - 1;
            }
            assert(trim(chars@.subrange(start as int, j as int)) == chars@.subrange(
                a as int,
                b as int,
            ));
            if b > a && chars[a] != '#' {
                m.apply_if_line(text, &chars, a, b, Key::Name);
                m.apply_if_line(text, &chars, a, b, Key::Version);
                m.apply_if_line(text, &chars, a, b, Key::CapReq);
                m.apply_if_line(text, &chars, a, b, Key::CapExp);
                m.apply_if_line(text, &chars, a, b, Key::Sandbox);
            }
            if j >= n {
                return m;
            }
            assert(t.skip(j - start + 1) =~= chars@.skip(j + 1));
            start = j + 1;
        }
    }
}

} // verus!

verus! {

/// A value that a manifest line carries unchanged: no line break, and no white space at
/// its end (a line is trimmed before it is read).
pub open spec fn clean_value(v: Seq<char>) -> bool {
    &&& forall|i: int| 0 <= i < v.len() ==> v[i] != '\n'
    &&& v.len() == 0 || !is_ws(v.last())
}

pub open spec fn clean_values(vs: Seq<Seq<char>>) -> bool {
    forall|i: int| 0 <= i < vs.len() ==> clean_value(#[trigger] vs[i])
}

/// Every value of `m` is carried unchanged by a manifest line.
pub open spec fn clean_model(m: ManifestModel) -> bool {
    &&& clean_value(m.name)
    &&& clean_value(m.version)
    &&& clean_values(m.caps_req)
    &&& clean_values(m.caps_exp)
    &&& clean_values(m.sandbox)
}

/// The directive `k` applied with each value of `vs` in turn.
pub open spec fn apply_all(m: ManifestModel, k: Key, vs: Seq<Seq<char>>) -> ManifestModel
    decreases vs.len(),
{
    if vs.len() == 0 {
        m
    } else {
        apply_key(apply_all(m, k, vs.drop_last()), k, vs.last())
    }
}

proof fn lemma_line_len_entry(l: Seq<char>, rest: Seq<char>)
    requires
        forall|i: int| 0 <= i < l.len() ==> l[i] != '\n',
    ensures
        line_len(l + seq!['\n'] + rest) == l.len(),
    decreases l.len(),
{
    let t = l + seq!['\n'] + rest;
    if l.len() > 0 {
        assert(t.drop_first() =~= l.drop_first() + seq!['\n'] + rest);
        lemma_line_len_entry(l.drop_first(), rest);
    }
}

proof fn lemma_apply_line_key(m: ManifestModel, k: Key, v: Seq<char>)
    ensures
        apply_line(m, key_text(k) + v) == apply_key(m, k, v),
{
    let line = key_text(k) + v;
    let kt = key_text(k);
    assert(kt.len() >= 5);
    assert(line[0] == kt[0]);
    assert(line[4] == kt[4]);
    assert(line.take(kt.len() as int) =~= kt);
    assert(line.skip(kt.len() as int) =~= v);
    assert forall|k2: Key| k2 != k implies !has_prefix(line, #[trigger] key_text(k2)) by {
        let kt2 = key_text(k2);
        if has_prefix(line, kt2) {
            assert(line.take(kt2.len() as int)[0] == line[0]);
            assert(line.take(kt2.len() as int)[4] == line[4]);
            assert(kt2[0] == kt[0] && kt2[4] == kt[4]);
        }
    }
}

/// Reading the line of the directive `k` with a clean value `v`.
proof fn lemma_parse_entry(m: ManifestModel, k: Key, v: Seq<char>, rest: Seq<char>)
    requires
        clean_value(v),
    ensures
        parse_from(m, entry(k, v) + rest) == parse_from(apply_key(m, k, v), rest),
{
    let kt = key_text(k);
    let l = kt + v;
    let t = entry(k, v) + rest;
    assert(t =~= l + seq!['\n'] + rest);
    assert forall|i: int| 0 <= i < l.len() implies l[i] != '\n' by {
        if i >= kt.len() {
            assert(l[i] == v[i - kt.len()]);
        }
    }
    lemma_line_len_entry(l, rest);
    assert(t.take(l.len() as int) =~= l);
    assert(l[0] == kt[0]);
    assert(l.last() == if v.len() == 0 { kt.last() } else { v.last() });
    assert(trim_start(l) == l);
    assert(trim_end(l) == l);
    lemma_apply_line_key(m, k, v);
    assert(t.skip(l.len() as int + 1) =~= rest);
}

proof fn lemma_parse_entries(m: ManifestModel, k: Key, vs: Seq<Seq<char>>, rest: Seq<char>)
    requires
        clean_values(vs),
    ensures
        parse_from(m, entries(k, vs) + rest) == parse_from(apply_all(m, k, vs), rest),
    decreases vs.len(),
{
    if vs.len() == 0 {
        assert(entries(k, vs) + rest =~= rest);
    } else {
        let front = vs.drop_last();
        assert(clean_values(front)) by {
            assert forall|i: int| 0 <= i < front.len() implies clean_value(#[trigger] front[i]) by {
                assert(front[i] == vs[i]);
            }
        }
        assert(clean_value(vs[vs.len() - 1]));
        assert(entries(k, vs) + rest =~= entries(k, front) + (entry(k, vs.last()) + rest));
        lemma_parse_entries(m, k, front, entry(k, vs.last()) + rest);
        lemma_parse_entry(apply_all(m, k, front), k, vs.last(), rest);
    }
}

proof fn lemma_apply_all_lists(m: ManifestModel, vs: Seq<Seq<char>>)
    ensures
        apply_all(m, Key::CapReq, vs) == (ManifestModel { caps_req: m.caps_req + vs, ..m }),
        apply_all(m, Key::CapExp, vs) == (ManifestModel { caps_exp: m.caps_exp + vs, ..m }),
        apply_all(m, Key::Sandbox, vs) == (ManifestModel { sandbox: m.sandbox + vs, ..m }),
    decreases vs.len(),
{
    if vs.len() == 0 {
        assert(m.caps_req + vs =~= m.caps_req);
        assert(m.caps_exp + vs =~= m.caps_exp);
        assert(m.sandbox + vs =~= m.sandbox);
    } else {
        lemma_apply_all_lists(m, vs.drop_last());
        assert((m.caps_req + vs.drop_last()).push(vs.last()) =~= m.caps_req + vs);
        assert((m.caps_exp + vs.drop_last()).push(vs.last()) =~= m.caps_exp + vs);
        assert((m.sandbox + vs.drop_last()).push(vs.last()) =~= m.sandbox + vs);
    }
}

proof fn lemma_parse_single(m: ManifestModel, k: Key, v: Seq<char>, rest: Seq<char>)
    requires
        clean_value(v),
        k == Key::Name || k == Key::Version,
    ensures
        parse_from(m, single_entry(k, v) + rest) == parse_from(
            if v.len() == 0 {
                m
            } else {
                apply_key(m, k, v)
            },
            rest,
        ),
{
    if v.len() == 0 {
        assert(single_entry(k, v) + rest =~= rest);
    } else {
        lemma_parse_entry(m, k, v, rest);
    }
}

/// Reading back what a manifest wrote gives the manifest again, where every value is
/// carried unchanged by a line (no line break in it, no white space at its end).
pub proof fn lemma_manifest_roundtrip(m: ManifestModel)
    requires
        clean_model(m),
    ensures
        spec_parse(spec_serialize_text(m)) == m,
        spec_parse(vstd::utf8::decode_utf8(spec_serialize(m))) == m,
{
    broadcast use vstd::utf8::encode_utf8_decode_utf8, vstd::utf8::encode_utf8_valid_utf8;

    let n = single_entry(Key::Name, m.name);
    let v = single_entry(Key::Version, m.version);
    let r = entries(Key::CapReq, m.caps_req);
    let e = entries(Key::CapExp, m.caps_exp);
    let s = entries(Key::Sandbox, m.sandbox);
    let empty = Seq::<char>::empty();
    assert(spec_serialize_text(m) =~= n + (v + (r + (e + (s + empty)))));
    let m0 = empty_model();
    lemma_parse_single(m0, Key::Name, m.name, v + (r + (e + (s + empty))));
    let m1 = if m.name.len() == 0 { m0 } else { apply_key(m0, Key::Name, m.name) };
    lemma_parse_single(m1, Key::Version, m.version, r + (e + (s + empty)));
    let m2 = if m.version.len() == 0 { m1 } else { apply_key(m1, Key::Version, m.version) };
    lemma_parse_entries(m2, Key::CapReq, m.caps_req, e + (s + empty));
    lemma_apply_all_lists(m2, m.caps_req);
    let m3 = apply_all(m2, Key::CapReq, m.caps_req);
    lemma_parse_entries(m3, Key::CapExp, m.caps_exp, s + empty);
    lemma_apply_all_lists(m3, m.caps_exp);
    let m4 = apply_all(m3, Key::CapExp, m.caps_exp);
    lemma_parse_entries(m4, Key::Sandbox, m.sandbox, empty);
    lemma_apply_all_lists(m4, m.sandbox);
    let m5 = apply_all(m4, Key::Sandbox, m.sandbox);
    assert(trim(empty.take(0)) =~= empty);
    assert(parse_from(m5, empty) == m5);
    assert(m.caps_req =~= Seq::<Seq<char>>::empty() + m.caps_req);
    assert(m.caps_exp =~= Seq::<Seq<char>>::empty() + m.caps_exp);
    assert(m.sandbox =~= Seq::<Seq<char>>::empty() + m.sandbox);
    assert(m5.name =~= m.name);
    assert(m5.version =~= m.version);
    assert(m5 == m);
}

/// No line break in `s`.
pub open spec fn no_newline(s: Seq<char>) -> bool {
    forall|i: int| 0 <= i < s.len() ==> s[i] != '\n'
}

proof fn lemma_line_len_no_newline(t: Seq<char>)
    ensures
        line_len(t) <= t.len(),
        no_newline(t.take(line_len(t) as int)),
    decreases t.len(),
{
    if t.len() > 0 && t[0] != '\n' {
        lemma_line_len_no_newline(t.drop_first());
        let k = line_len(t) as int;
        assert forall|i: int| 0 <= i < k implies t.take(k)[i] != '\n' by {
            if i > 0 {
                assert(t.take(k)[i] == t.drop_first().take(k - 1)[i - 1]);
            }
        }
    } else {
        assert(t.take(0) =~= Seq::<char>::empty());
    }
}

proof fn lemma_trim_start_no_newline(s: Seq<char>)
    requires
        no_newline(s),
    ensures
        no_newline(trim_start(s)),
    decreases s.len(),
{
    if s.len() > 0 && is_ws(s[0]) {
        assert(no_newline(s.drop_first()));
        lemma_trim_start_no_newline(s.drop_first());
    }
}

proof fn lemma_trim_end_clean(s: Seq<char>)
    requires
        no_newline(s),
    ensures
        clean_value(trim_end(s)),
    decreases s.len(),
{
    if s.len() > 0 && is_ws(s.last()) {
        assert(no_newline(s.drop_last()));
        lemma_trim_end_clean(s.drop_last());
    }
}

/// A trimmed line without a line break carries its value unchanged.
proof fn lemma_trim_clean(s: Seq<char>)
    requires
        no_newline(s),
    ensures
        clean_value(trim(s)),
{
    lemma_trim_start_no_newline(s);
    lemma_trim_end_clean(trim_start(s));
}

proof fn lemma_apply_if_clean(m: ManifestModel, line: Seq<char>, k: Key)
    requires
        clean_model(m),
        clean_value(line),
    ensures
        clean_model(apply_if(m, line, k)),
{
    if has_prefix(line, key_text(k)) {
        let v = line.skip(key_text(k).len() as int);
        assert forall|i: int| 0 <= i < v.len() implies v[i] != '\n' by {
            assert(v[i] == line[i + key_text(k).len()]);
        }
        if v.len() > 0 {
            assert(v.last() == line.last());
        }
        assert(clean_value(v));
        assert(clean_values(m.caps_req.push(v)));
        assert(clean_values(m.caps_exp.push(v)));
        assert(clean_values(m.sandbox.push(v)));
    }
}

proof fn lemma_apply_line_clean(m: ManifestModel, line: Seq<char>)
    requires
        clean_model(m),
        clean_value(line),
    ensures
        clean_model(apply_line(m, line)),
{
    if !(line.len() == 0 || line[0] == '#') {
        let m1 = apply_if(m, line, Key::Name);
        lemma_apply_if_clean(m, line, Key::Name);
        let m2 = apply_if(m1, line, Key::Version);
        lemma_apply_if_clean(m1, line, Key::Version);
        let m3 = apply_if(m2, line, Key::CapReq);
        lemma_apply_if_clean(m2, line, Key::CapReq);
        let m4 = apply_if(m3, line, Key::CapExp);
        lemma_apply_if_clean(m3, line, Key::CapExp);
        lemma_apply_if_clean(m4, line, Key::Sandbox);
    }
}

proof fn lemma_parse_from_clean(m: ManifestModel, t: Seq<char>)
    requires
        clean_model(m),
    ensures
        clean_model(parse_from(m, t)),
    decreases t.len(),
{
    let k = line_len(t);
    lemma_line_len_no_newline(t);
    lemma_trim_clean(t.take(k as int));
    let m2 = apply_line(m, trim(t.take(k as int)));
    lemma_apply_line_clean(m, trim(t.take(k as int)));
    if k < t.len() {
        lemma_parse_from_clean(m2, t.skip(k + 1 as int));
    }
}

/// Every manifest read from a text is carried unchanged by its lines: writing it and reading
/// it again gives it back.
pub proof fn lemma_parse_serialize_parse(text: Seq<char>)
    ensures
        clean_model(spec_parse(text)),
        spec_parse(spec_serialize_text(spec_parse(text))) == spec_parse(text),
        spec_parse(vstd::utf8::decode_utf8(spec_serialize(spec_parse(text)))) == spec_parse(text),
{
    assert(clean_model(empty_model()));
    lemma_parse_from_clean(empty_model(), text);
    lemma_manifest_roundtrip(spec_parse(text));
}

} // verus!
