//! The settings document: a single table with the default profile name,
//! rendered and parsed in its canonical shape.  Reading and writing the
//! file itself is the caller's business.

use vstd::prelude::*;

verus! {

use vstd::string::StrSliceExecFns;
use vstd::string::StringExecFns;

/// The settings document.
pub struct Settings {
    pub wsinit: Wsinit,
}

/// The one recognized settings table: the default profile name, empty
/// meaning no default.
pub struct Wsinit {
    default_profile: String,
}

/// The settings document is malformed.
#[derive(Debug)]
pub struct SettingsParseError;

/// `pat` occurs in `s` at position `at`.
fn matches_at(s: &str, at: usize, pat: &str) -> (r: bool)
    requires
        at + pat@.len() <= s@.len(),
    ensures
        r == (s@.subrange(at as int, at + pat@.len()) == pat@),
{
    let sl = s.unicode_len();
    let pl = pat.unicode_len();
    let mut j: usize = 0;
    while j < pl
        invariant
            sl == s@.len(),
            pl == pat@.len(),
            at + pl <= sl,
            j <= pl,
            forall|i: int| 0 <= i < j ==> s@[at + i] == pat@[i],
        decreases pl - j,
    {
        if s.get_char(at + j) != pat.get_char(j) {
            assert(s@[at + j] != pat@[j as int]);
            assert(s@.subrange(at as int, at + pat@.len()) != pat@) by {
                if s@.subrange(at as int, at + pat@.len()) == pat@ {
                    assert(s@.subrange(at as int, at + pat@.len())[j as int] == pat@[j as int]);
                }
            }
            return false;
        }
        j = j + 1;
    }
    assert(s@.subrange(at as int, at + pat@.len()) =~= pat@);
    true
}

/// The canonical settings document for a default profile `v`.
pub open spec fn spec_render(v: Seq<char>) -> Seq<char> {
    "[wsinit]\ndefault_profile = \""@ + v + "\"\n"@
}

impl Wsinit {
    /// An empty table: no default profile.
    pub fn new() -> (r: Self)
        ensures
            r.spec_default().len() == 0,
    {
        Wsinit { default_profile: String::new() }
    }

    /// The recorded default profile name.
    pub closed spec fn spec_default(&self) -> Seq<char> {
        self.default_profile@
    }

    /// The default profile name, empty when none is set.
    pub fn get_default(&self) -> (r: String)
        ensures
            r@ == self.spec_default(),
    {
        self.default_profile.clone()
    }

    /// Record `default` as the default profile name.
    pub fn set_default(&mut self, default: &str)
        ensures
            final(self).spec_default() == default@,
    {
        self.default_profile = default.to_owned();
    }
}

impl Settings {
    /// Fresh settings: no default profile.
    pub fn new() -> (r: Self)
        ensures
            r.wsinit.spec_default().len() == 0,
    {
        Settings { wsinit: Wsinit::new() }
    }

    /// The canonical text of this settings document.
    pub fn render(&self) -> (r: String)
        ensures
            r@ == spec_render(self.wsinit.spec_default()),
    {
        String::from_str("[wsinit]\ndefault_profile = \"").concat(
            self.wsinit.default_profile.as_str(),
        ).concat("\"\n")
    }

    /// Parse a settings document.  Succeeds exactly on documents of the
    /// canonical shape that `render` produces; anything else is
    /// malformed, which callers degrade to fresh defaults and a warning.
    pub fn parse(doc: &str) -> (r: Result<Settings, SettingsParseError>)
        ensures
            r matches Ok(s) ==> doc@ == spec_render(s.wsinit.spec_default()),
            r is Err ==> (forall|v: Seq<char>| doc@ != spec_render(v)),
    {
        let head = "[wsinit]\ndefault_profile = \"";
        let tail = "\"\n";
        let n = doc.unicode_len();
        let hl = head.unicode_len();
        let tl = tail.unicode_len();
        if n < hl || n - hl < tl {
            proof {
                assert forall|v: Seq<char>| doc@ != spec_render(v) by {
                    assert(spec_render(v).len() == hl + v.len() + tl);
                }
            }
            return Err(SettingsParseError);
        }
        if !matches_at(doc, 0, head) {
            proof {
                assert forall|v: Seq<char>| doc@ != spec_render(v) by {
                    if doc@ == spec_render(v) {
                        assert(doc@.subrange(0, hl as int) =~= head@);
                    }
                }
            }
            return Err(SettingsParseError);
        }
        if !matches_at(doc, n - tl, tail) {
            proof {
                assert forall|v: Seq<char>| doc@ != spec_render(v) by {
                    if doc@ == spec_render(v) {
                        assert(v.len() == n - hl - tl);
                        assert(doc@.subrange((n - tl) as int, n as int) =~= tail@);
                    }
                }
            }
            return Err(SettingsParseError);
        }
        let value = doc.substring_char(hl, n - tl);
        let s = Settings { wsinit: Wsinit { default_profile: String::from_str(value) } };
        proof {
            assert(doc@ =~= head@ + value@ + tail@);
        }
        Ok(s)
    }
}

/// Rendering is injective: two documents that render the same have the
/// same default profile, so parsing a rendered document recovers it.
pub proof fn lemma_render_injective(v1: Seq<char>, v2: Seq<char>)
    requires
        spec_render(v1) == spec_render(v2),
    ensures
        v1 == v2,
{
    let head = "[wsinit]\ndefault_profile = \""@;
    let tail = "\"\n"@;
    assert(spec_render(v1).len() == head.len() + v1.len() + tail.len());
    assert(spec_render(v2).len() == head.len() + v2.len() + tail.len());
    assert(v1.len() == v2.len());
    assert(v1 =~= v2) by {
        assert(forall|i: int|
            0 <= i < v1.len() ==> spec_render(v1)[head.len() + i] == v1[i] && spec_render(v2)[
                head.len() + i
            ] == v2[i]);
    }
}

} // verus!
