//! The engine's configuration: which brain, which embedder, which vaults;
//! where the engine keeps its files. Reading and writing `config.toml`
//! stands outside the library.
use vstd::prelude::*;

use crate::paths::{join, join_path};
use crate::text::{char_vecs, chars_of, concat_str, nth_field, split_chars, string_of};

verus! {

broadcast use vstd::string::group_string_axioms;

/// A markdown vault: an id and the directory it lives in.
#[derive(Clone, Debug)]
pub struct Vault {
    pub id: String,
    pub path: String,
}

/// The configuration of one brain.
#[derive(Clone, Debug)]
pub struct Config {
    pub name: String,
    pub embedder: String,
    pub embedder_url: String,
    pub embed_dims: u32,
    pub vaults: Vec<Vault>,
}

/// Where a brain's database lives: `<home>/brains/<name>/brain.sqlite`.
pub open spec fn brain_file(home: Seq<char>, name: Seq<char>) -> Seq<char> {
    join(join(join(home, "brains"@), name), "brain.sqlite"@)
}

/// The engine's home when neither `COS_HOME` nor `HOME` says otherwise.
pub open spec fn home_dir_name() -> Seq<char> {
    ".cognitive-os"@
}

/// The engine's home: `COS_HOME` if set; else `.cognitive-os` under `HOME`;
/// else `.cognitive-os` relative to the working directory.
pub open spec fn home_from(cos_home: Option<Seq<char>>, home: Option<Seq<char>>) -> Seq<char> {
    match cos_home {
        Some(h) => h,
        None => match home {
            Some(h) => join(h, home_dir_name()),
            None => home_dir_name(),
        },
    }
}

/// The embedding model used when an embedder spec names none.
pub open spec fn default_model() -> Seq<char> {
    "nomic-embed-text"@
}

/// The vector width every embedder spec is given.
pub open spec fn default_dims() -> u32 {
    768
}

/// The model named by an embedder spec such as `"ollama:nomic-embed-text"`:
/// its second `:`-separated field, or the default model.
pub open spec fn spec_model(spec: Seq<char>) -> Seq<char> {
    match nth_field(spec, ':', 1) {
        Some(m) => m,
        None => default_model(),
    }
}

/// The brain name used when `init` is given none.
pub open spec fn default_brain_name() -> Seq<char> {
    "default"@
}

/// The digit character for `d < 10`.
pub open spec fn digit_char(d: nat) -> char {
    if d == 0 {
        '0'
    } else if d == 1 {
        '1'
    } else if d == 2 {
        '2'
    } else if d == 3 {
        '3'
    } else if d == 4 {
        '4'
    } else if d == 5 {
        '5'
    } else if d == 6 {
        '6'
    } else if d == 7 {
        '7'
    } else if d == 8 {
        '8'
    } else {
        '9'
    }
}

fn digit_of(d: usize) -> (c: char)
    requires
        d < 10,
    ensures
        c == digit_char(d as nat),
{
    if d == 0 {
        '0'
    } else if d == 1 {
        '1'
    } else if d == 2 {
        '2'
    } else if d == 3 {
        '3'
    } else if d == 4 {
        '4'
    } else if d == 5 {
        '5'
    } else if d == 6 {
        '6'
    } else if d == 7 {
        '7'
    } else if d == 8 {
        '8'
    } else {
        '9'
    }
}

/// The decimal digits of `n`.
pub open spec fn decimal(n: nat) -> Seq<char>
    decreases n,
{
    if n < 10 {
        seq![digit_char(n)]
    } else {
        decimal(n / 10) + seq![digit_char(n % 10)]
    }
}

/// The id `init` gives the vault at position `i`: the first is `fixture`,
/// the others `vault-<i>`.
pub open spec fn vault_id(i: nat) -> Seq<char> {
    if i == 0 {
        "fixture"@
    } else {
        "vault-"@ + decimal(i)
    }
}

/// Why `init` refuses to write a configuration.
#[derive(Clone, Copy, Debug, PartialEq, Eq, Structural)]
pub enum InitError {
    /// No vault was given.
    NoVaults,
}

impl Config {
    /// `Config::default_home`, given what the environment holds:
    /// `COS_HOME` (when set and valid Unicode) and `HOME`.
    pub fn default_home_from(cos_home: Option<String>, home: Option<String>) -> (out: String)
        ensures
            out@ == home_from(
                match cos_home {
                    Some(h) => Some(h@),
                    None => None,
                },
                match home {
                    Some(h) => Some(h@),
                    None => None,
                },
            ),
    {
        match cos_home {
            Some(h) => h,
            None => match home {
                Some(h) => join_path(h.as_str(), ".cognitive-os"),
                None => string_of(&chars_of(".cognitive-os")),
            },
        }
    }

    /// `Config::brain_path`: `<home>/brains/<name>/brain.sqlite`, joined as
    /// `Path::join` joins.
    pub fn brain_path(home: &str, name: &str) -> (out: String)
        ensures
            out@ == brain_file(home@, name@),
    {
        let brains = join_path(home, "brains");
        let dir = join_path(brains.as_str(), name);
        join_path(dir.as_str(), "brain.sqlite")
    }

    /// `Config::parse_embedder`: the model an embedder spec names, and the
    /// vector width, which is 768 for every spec.
    pub fn parse_embedder(spec: &str) -> (out: (String, u32))
        ensures
            out.0@ == spec_model(spec@),
            out.1 == default_dims(),
    {
        let chars = chars_of(spec);
        let fields = split_chars(&chars, ':');
        assert(char_vecs(fields@).len() == fields@.len());
        if fields.len() > 1 {
            assert(char_vecs(fields@)[1] == fields@[1]@);
            (string_of(&fields[1]), 768)
        } else {
            (string_of(&chars_of("nomic-embed-text")), 768)
        }
    }

    /// The configuration `init` writes: the given name or `default`; the
    /// embedder spec and URL as given, with the width `parse_embedder`
    /// gives; one vault per path, with ids `fixture`, `vault-1`,
    /// `vault-2`, .... Refused when no vault is given.
    pub fn init_config(
        name: Option<String>,
        embedder: String,
        embedder_url: String,
        vault_paths: Vec<String>,
    ) -> (out: Result<Config, InitError>)
        ensures
            vault_paths@.len() == 0 <==> out == Err::<Config, InitError>(InitError::NoVaults),
            match out {
                Ok(cfg) => {
                    &&& cfg.name@ == match name {
                        Some(n) => n@,
                        None => default_brain_name(),
                    }
                    &&& cfg.embedder@ == embedder@
                    &&& cfg.embedder_url@ == embedder_url@
                    &&& cfg.embed_dims == default_dims()
                    &&& cfg.vaults@.len() == vault_paths@.len()
                    &&& forall|i: int|
                        0 <= i < cfg.vaults@.len() ==> (#[trigger] cfg.vaults@[i]).id@ == vault_id(
                            i as nat,
                        ) && cfg.vaults@[i].path@ == vault_paths@[i]@
                },
                Err(_) => true,
            },
    {
        if vault_paths.len() == 0 {
            return Err(InitError::NoVaults);
        }
        let name = match name {
            Some(n) => n,
            None => string_of(&chars_of("default")),
        };
        let (_model, dims) = Config::parse_embedder(embedder.as_str());
        let mut vaults: Vec<Vault> = Vec::new();
        let mut i: usize = 0;
        while i < vault_paths.len()
            invariant
                i <= vault_paths.len(),
                vaults@.len() == i,
                forall|j: int|
                    0 <= j < i ==> (#[trigger] vaults@[j]).id@ == vault_id(j as nat)
                        && vaults@[j].path@ == vault_paths@[j]@,
            decreases vault_paths.len() - i,
        {
            let id = vault_id_of(i);
            let path = string_of(&chars_of(vault_paths[i].as_str()));
            vaults.push(Vault { id, path });
            i = i + 1;
        }
        Ok(Config { name, embedder, embedder_url, embed_dims: dims, vaults })
    }
}

/// The decimal digits of `n`.
pub fn decimal_of(n: usize) -> (out: Vec<char>)
    ensures
        out@ == decimal(n as nat),
    decreases n,
{
    if n < 10 {
        let d = digit_of(n);
        vec![d]
    } else {
        let mut out = decimal_of(n / 10);
        let d = digit_of(n % 10);
        out.push(d);
        out
    }
}

/// `vault_id(i)`.
pub fn vault_id_of(i: usize) -> (out: String)
    ensures
        out@ == vault_id(i as nat),
{
    if i == 0 {
        string_of(&chars_of("fixture"))
    } else {
        let digits = string_of(&decimal_of(i));
        concat_str("vault-", digits.as_str())
    }
}

proof fn lemma_digit_char_injective(d: nat, e: nat)
    requires
        d < 10,
        e < 10,
        digit_char(d) == digit_char(e),
    ensures
        d == e,
{
}

proof fn lemma_decimal_nonempty(n: nat)
    ensures
        decimal(n).len() >= 1,
        n >= 10 ==> decimal(n).len() >= 2,
    decreases n,
{
    if n >= 10 {
        lemma_decimal_nonempty(n / 10);
    }
}

/// Different numbers have different decimal digits.
pub proof fn lemma_decimal_injective(n: nat, m: nat)
    requires
        decimal(n) == decimal(m),
    ensures
        n == m,
    decreases n,
{
    lemma_decimal_nonempty(n);
    lemma_decimal_nonempty(m);
    if n < 10 && m < 10 {
        assert(decimal(n) == seq![digit_char(n)]);
        assert(decimal(m) == seq![digit_char(m)]);
        assert(decimal(n)[0] == digit_char(n));
        assert(decimal(m)[0] == digit_char(m));
        lemma_digit_char_injective(n, m);
    } else if n >= 10 && m >= 10 {
        let dn = decimal(n);
        let dm = decimal(m);
        assert(dn.last() == digit_char(n % 10));
        assert(dm.last() == digit_char(m % 10));
        assert(dn.drop_last() =~= decimal(n / 10));
        assert(dm.drop_last() =~= decimal(m / 10));
        lemma_decimal_injective(n / 10, m / 10);
        lemma_digit_char_injective(n % 10, m % 10);
        assert(n == 10 * (n / 10) + n % 10) by (nonlinear_arith);
        assert(m == 10 * (m / 10) + m % 10) by (nonlinear_arith);
    } else if n < 10 {
        assert(decimal(n).len() == 1);
    } else {
        assert(decimal(m).len() == 1);
    }
}

/// `init` gives the vaults pairwise different ids.
pub proof fn lemma_vault_ids_distinct(i: nat, j: nat)
    requires
        i != j,
    ensures
        vault_id(i) != vault_id(j),
{
    reveal_strlit("fixture");
    reveal_strlit("vault-");
    if i != 0 && j != 0 {
        if vault_id(i) == vault_id(j) {
            assert(decimal(i) =~= vault_id(i).subrange(6, vault_id(i).len() as int));
            assert(decimal(j) =~= vault_id(j).subrange(6, vault_id(j).len() as int));
            lemma_decimal_injective(i, j);
        }
    } else if i == 0 {
        assert(vault_id(i)[0] != vault_id(j)[0]);
    } else {
        assert(vault_id(i)[0] != vault_id(j)[0]);
    }
}

/// Each brain has a database file of its own: two different names that are
/// not empty and neither begin nor end with `/` give different brain paths
/// under the same home.
pub proof fn lemma_brain_paths_distinct(home: Seq<char>, a: Seq<char>, b: Seq<char>)
    requires
        a != b,
        a.len() > 0,
        b.len() > 0,
        a[0] != '/',
        b[0] != '/',
        a.last() != '/',
        b.last() != '/',
    ensures
        brain_file(home, a) != brain_file(home, b),
{
    reveal_strlit("brains");
    reveal_strlit("brain.sqlite");
    let p = join(home, "brains"@);
    assert(p.len() > 0 && p.last() == 's');
    let sfx = "brain.sqlite"@;
    assert(join(p, a) == p + seq!['/'] + a);
    assert(join(p, b) == p + seq!['/'] + b);
    let fa = p + seq!['/'] + a + seq!['/'] + sfx;
    let fb = p + seq!['/'] + b + seq!['/'] + sfx;
    assert((p + seq!['/'] + a).last() == a.last());
    assert((p + seq!['/'] + b).last() == b.last());
    assert(brain_file(home, a) == fa);
    assert(brain_file(home, b) == fb);
    if fa == fb {
        assert(a.len() == b.len());
        let lo = p.len() + 1;
        assert(a =~= fa.subrange(lo as int, (lo + a.len()) as int));
        assert(b =~= fb.subrange(lo as int, (lo + b.len()) as int));
    }
}

} // verus!
