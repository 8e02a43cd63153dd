//! Language profiles and the profile registry.
//!
//! A profile is pure data: the declaration keywords with the symbol kind each
//! one introduces, the modifier words that may open a declaration (such as
//! `pub`), and the separator used to join nested names.  The registry maps a
//! language identifier to its profile; it is built once and read-only
//! afterwards.

use vstd::prelude::*;
use vstd::string::*;
use crate::token::{Token, TokenKind};

verus! {

/// The kind of a recognized declaration.
#[derive(Clone, Copy, Debug, PartialEq, Eq, Structural)]
pub enum SymbolKind {
    Module,
    Function,
    Type,
    Other,
}

/// The mathematical model of a grammar profile.
#[verifier::ext_equal]
pub struct ProfileModel {
    pub id: Seq<char>,
    pub keywords: Seq<(Seq<char>, SymbolKind)>,
    pub modifiers: Seq<Seq<char>>,
    pub separator: Seq<char>,
}

/// A grammar profile: declaration keywords, declaration modifiers, and the
/// nesting separator for qualified names.
pub struct LanguageProfile {
    pub id: String,
    pub keywords: Vec<(String, SymbolKind)>,
    pub modifiers: Vec<String>,
    pub separator: String,
}

impl View for LanguageProfile {
    type V = ProfileModel;

    open spec fn view(&self) -> ProfileModel {
        ProfileModel {
            id: self.id@,
            keywords: self.keywords@.map(|_i: int, kv: (String, SymbolKind)| (kv.0@, kv.1)),
            modifiers: self.modifiers@.map(|_i: int, m: String| m@),
            separator: self.separator@,
        }
    }
}

/// First keyword entry whose word is `w`, if any.
pub open spec fn kw_lookup(kws: Seq<(Seq<char>, SymbolKind)>, w: Seq<char>) -> Option<SymbolKind>
    decreases kws.len(),
{
    if kws.len() == 0 {
        Option::None
    } else if kws[0].0 == w {
        Option::Some(kws[0].1)
    } else {
        kw_lookup(kws.drop_first(), w)
    }
}

/// The characters a token covers.
pub open spec fn token_text(text: Seq<char>, t: Token) -> Seq<char> {
    text.subrange(t.start as int, t.end as int)
}

/// A token that can open a declaration: a declaration keyword or a modifier.
pub open spec fn is_decl_intro(text: Seq<char>, p: ProfileModel, t: Token) -> bool {
    t.kind == TokenKind::Ident && (kw_lookup(p.keywords, token_text(text, t)) is Some
        || p.modifiers.contains(token_text(text, t)))
}

/// Compare the characters `[s, e)` of `chars` with the view of `w`.
#[verifier::loop_isolation(false)]
pub fn span_eq_str(chars: &Vec<char>, s: usize, e: usize, w: &str) -> (r: bool)
    requires
        s <= e <= chars@.len(),
    ensures
        r == (chars@.subrange(s as int, e as int) == w@),
{
    let ghost sub = chars@.subrange(s as int, e as int);
    let wn = w.unicode_len();
    if wn != e - s {
        proof {
            if sub == w@ {
                assert(sub.len() == w@.len());
            }
        }
        return false;
    }
    let mut k: usize = 0;
    while k < wn
        invariant
            0 <= k <= wn,
            forall|m: int| 0 <= m < k ==> sub[m] == w@[m],
        decreases wn - k,
    {
        let a = chars[s + k];
        let b = w.get_char(k);
        if a != b {
            proof {
                assert(sub[k as int] == chars@[s + k as int]);
                if sub == w@ {
                    assert(sub[k as int] == w@[k as int]);
                }
            }
            return false;
        }
        proof {
            assert(sub[k as int] == chars@[s + k as int]);
        }
        k = k + 1;
    }
    proof {
        assert(sub =~= w@);
    }
    true
}

/// Compare two string slices by their character sequences.
#[verifier::loop_isolation(false)]
pub fn str_eq(a: &str, b: &str) -> (r: bool)
    ensures
        r == (a@ == b@),
{
    let an = a.unicode_len();
    let bn = b.unicode_len();
    if an != bn {
        proof {
            if a@ == b@ {
                assert(a@.len() == b@.len());
            }
        }
        return false;
    }
    let mut k: usize = 0;
    while k < an
        invariant
            0 <= k <= an,
            forall|m: int| 0 <= m < k ==> a@[m] == b@[m],
        decreases an - k,
    {
        if a.get_char(k) != b.get_char(k) {
            proof {
                if a@ == b@ {
                    assert(a@[k as int] == b@[k as int]);
                }
            }
            return false;
        }
        k = k + 1;
    }
    proof {
        assert(a@ =~= b@);
    }
    true
}

/// Look up the declaration keyword kind of the word `[s, e)` of the text.
#[verifier::loop_isolation(false)]
pub fn kw_of(profile: &LanguageProfile, chars: &Vec<char>, s: usize, e: usize) -> (r: Option<
    SymbolKind,
>)
    requires
        s <= e <= chars@.len(),
    ensures
        r == kw_lookup(profile@.keywords, chars@.subrange(s as int, e as int)),
{
    let ghost w = chars@.subrange(s as int, e as int);
    let ghost kws = profile@.keywords;
    let n = profile.keywords.len();
    let mut k: usize = 0;
    proof {
        assert(kws.skip(0) =~= kws);
    }
    while k < n
        invariant
            0 <= k <= n,
            kw_lookup(kws, w) == kw_lookup(kws.skip(k as int), w),
        decreases n - k,
    {
        proof {
            assert(kws.skip(k as int)[0] == kws[k as int]);
            assert(kws.skip(k as int).drop_first() =~= kws.skip(k as int + 1));
        }
        if span_eq_str(chars, s, e, profile.keywords[k].0.as_str()) {
            return Some(profile.keywords[k].1);
        }
        k = k + 1;
    }
    proof {
        assert(kws.skip(n as int) =~= Seq::<(Seq<char>, SymbolKind)>::empty());
    }
    None
}

/// Whether the word `[s, e)` of the text is one of the profile's modifiers.
#[verifier::loop_isolation(false)]
pub fn modifier_of(profile: &LanguageProfile, chars: &Vec<char>, s: usize, e: usize) -> (r: bool)
    requires
        s <= e <= chars@.len(),
    ensures
        r == profile@.modifiers.contains(chars@.subrange(s as int, e as int)),
{
    let ghost w = chars@.subrange(s as int, e as int);
    let ghost ms = profile@.modifiers;
    let n = profile.modifiers.len();
    let mut k: usize = 0;
    while k < n
        invariant
            0 <= k <= n,
            forall|m: int| 0 <= m < k ==> ms[m] != w,
        decreases n - k,
    {
        if span_eq_str(chars, s, e, profile.modifiers[k].as_str()) {
            proof {
                assert(ms[k as int] == w);
            }
            return true;
        }
        k = k + 1;
    }
    proof {
        if ms.contains(w) {
            let m = choose|m: int| 0 <= m < ms.len() && ms[m] == w;
            assert(ms[m] != w);
        }
    }
    false
}

/// Whether the token at `[s, e)` with kind `kind` opens a declaration.
pub fn decl_intro_at(profile: &LanguageProfile, chars: &Vec<char>, t: &Token) -> (r: bool)
    requires
        t.start <= t.end <= chars@.len(),
    ensures
        r == is_decl_intro(chars@, profile@, *t),
{
    if !matches!(t.kind, TokenKind::Ident) {
        return false;
    }
    let kw = kw_of(profile, chars, t.start, t.end);
    if kw.is_some() {
        return true;
    }
    modifier_of(profile, chars, t.start, t.end)
}

/// The registry: language identifier to profile, first match wins.
pub struct Registry {
    pub profiles: Vec<LanguageProfile>,
}

impl View for Registry {
    type V = Seq<ProfileModel>;

    open spec fn view(&self) -> Seq<ProfileModel> {
        self.profiles@.map(|_i: int, p: LanguageProfile| p@)
    }
}

/// First profile registered under `id`, if any.
pub open spec fn reg_lookup(rs: Seq<ProfileModel>, id: Seq<char>) -> Option<ProfileModel>
    decreases rs.len(),
{
    if rs.len() == 0 {
        Option::None
    } else if rs[0].id == id {
        Option::Some(rs[0])
    } else {
        reg_lookup(rs.drop_first(), id)
    }
}

impl Registry {
    /// A registry with no profiles.
    pub fn new() -> (r: Registry)
        ensures
            r@ =~= Seq::<ProfileModel>::empty(),
    {
        Registry { profiles: Vec::new() }
    }

    /// Add a profile at the end; earlier registrations take precedence.
    pub fn register(&mut self, p: LanguageProfile)
        ensures
            final(self)@ =~= old(self)@.push(p@),
    {
        self.profiles.push(p);
    }

    /// The profile for `id`, or `None` when the language is not supported.
    #[verifier::loop_isolation(false)]
    pub fn get(&self, id: &str) -> (r: Option<&LanguageProfile>)
        ensures
            match r {
                Option::Some(p) => reg_lookup(self@, id@) == Option::Some(p@),
                Option::None => reg_lookup(self@, id@) is None,
            },
    {
        let ghost rs = self@;
        let n = self.profiles.len();
        let mut k: usize = 0;
        proof {
            assert(rs.skip(0) =~= rs);
        }
        while k < n
            invariant
                0 <= k <= n,
                reg_lookup(rs, id@) == reg_lookup(rs.skip(k as int), id@),
            decreases n - k,
        {
            proof {
                assert(rs.skip(k as int)[0] == rs[k as int]);
                assert(rs.skip(k as int).drop_first() =~= rs.skip(k as int + 1));
            }
            if str_eq(self.profiles[k].id.as_str(), id) {
                return Some(&self.profiles[k]);
            }
            k = k + 1;
        }
        proof {
            assert(rs.skip(n as int) =~= Seq::<ProfileModel>::empty());
        }
        None
    }
}

/// The model of the brace-delimited profile registered under `rust`.
pub open spec fn rust_profile_model() -> ProfileModel {
    ProfileModel {
        id: "rust"@,
        keywords: seq![
            ("mod"@, SymbolKind::Module),
            ("fn"@, SymbolKind::Function),
            ("struct"@, SymbolKind::Type),
            ("enum"@, SymbolKind::Type),
            ("trait"@, SymbolKind::Type),
            ("union"@, SymbolKind::Type),
            ("type"@, SymbolKind::Type),
        ],
        modifiers: seq!["pub"@, "crate"@],
        separator: "::"@,
    }
}

/// Build the profile for the `rust` language id.
pub fn rust_profile() -> (p: LanguageProfile)
    ensures
        p@ == rust_profile_model(),
{
    let mut keywords: Vec<(String, SymbolKind)> = Vec::new();
    keywords.push((String::from_str("mod"), SymbolKind::Module));
    keywords.push((String::from_str("fn"), SymbolKind::Function));
    keywords.push((String::from_str("struct"), SymbolKind::Type));
    keywords.push((String::from_str("enum"), SymbolKind::Type));
    keywords.push((String::from_str("trait"), SymbolKind::Type));
    keywords.push((String::from_str("union"), SymbolKind::Type));
    keywords.push((String::from_str("type"), SymbolKind::Type));
    let mut modifiers: Vec<String> = Vec::new();
    modifiers.push(String::from_str("pub"));
    modifiers.push(String::from_str("crate"));
    let p = LanguageProfile {
        id: String::from_str("rust"),
        keywords,
        modifiers,
        separator: String::from_str("::"),
    };
    proof {
        assert(p@.keywords =~= rust_profile_model().keywords);
        assert(p@.modifiers =~= rust_profile_model().modifiers);
        assert(p@ =~= rust_profile_model());
    }
    p
}

/// The models of the profiles in the standard registry.
pub open spec fn standard_models() -> Seq<ProfileModel> {
    seq![rust_profile_model()]
}

/// The registry the library ships with: one brace-delimited profile family.
pub fn standard_registry() -> (r: Registry)
    ensures
        r@ =~= standard_models(),
{
    let mut r = Registry::new();
    r.register(rust_profile());
    r
}

} // verus!
