//! The on-disk configuration, the size syntax of `--min-size`, and the
//! resolution of the settings of a run from flags, file and defaults.
use vstd::prelude::*;

use vstd::string::StringExecFns;

use crate::error::ShrinkError;
use crate::size::{parse_size_text, size_outcome, size_result_is};
use crate::cli::RunArgs;
use crate::text::{
    contains_text, distinct_texts, join_path, lowercase, path_join, split_on, split_text, text_in,
    texts_distinct, trim, trimmed, unicode_lowercase,
};

verus! {

/// The configuration file's contents. Every field is optional so that a
/// missing field falls back to the built-in default.
#[derive(Debug, Clone)]
pub struct Config {
    pub concurrency: Option<usize>,
    pub overwrite: Option<bool>,
    pub min_size: Option<String>,
    pub extensions: Option<Vec<String>>,
    pub skip_compressed: Option<bool>,
    pub keys: KeysConfig,
}

/// The keys stored in the configuration file.
#[derive(Debug, Clone)]
pub struct KeysConfig {
    pub values: Vec<String>,
}

impl Default for KeysConfig {
    fn default() -> (c: KeysConfig)
        ensures
            c.values@.len() == 0,
    {
        KeysConfig { values: Vec::new() }
    }
}

impl Default for Config {
    fn default() -> (c: Config)
        ensures
            c.concurrency is None,
            c.overwrite is None,
            c.min_size is None,
            c.extensions is None,
            c.skip_compressed is None,
            c.keys.values@.len() == 0,
    {
        Config {
            concurrency: None,
            overwrite: None,
            min_size: None,
            extensions: None,
            skip_compressed: None,
            keys: KeysConfig::default(),
        }
    }
}

} // verus!

verus! {

/// Reads a human-readable byte size such as `10k`, `1.5m`, `500` or `2G`:
/// surrounding whitespace is ignored and letters are lowercased first,
/// then the text is read as [`crate::size::parse_size_text`] describes.
pub fn parse_size(s: &str) -> (r: Result<u64, ShrinkError>)
    ensures
        size_result_is(r, size_outcome(unicode_lowercase(trim(s@)))),
{
    let t = trimmed(s);
    let lower = lowercase(t.as_str());
    parse_size_text(lower.as_str())
}

/// Calls `directories::BaseDirs::new` and its `home_dir`, and takes the
/// home directory as text with `Path::to_str`: `None` when there is no
/// home directory, `Some(None)` when it is not valid Unicode. The home
/// directory depends on the environment, so nothing is stated of it.
#[verifier::external_body]
fn home_directory() -> Option<Option<String>> {
    directories::BaseDirs::new().map(|b| b.home_dir().to_str().map(|h| h.to_string()))
}

/// Where the configuration file of a user with home directory `home` is:
/// `<home>/.config/tinypng/config.toml`, or `tinypng_config.toml` when
/// there is no home directory.
pub open spec fn config_path_under(home: Option<Seq<char>>) -> Seq<char> {
    match home {
        Some(h) => path_join(path_join(path_join(h, ".config"@), "tinypng"@), "config.toml"@),
        None => "tinypng_config.toml"@,
    }
}

/// The configuration file path for the home directory `home`.
pub fn config_path_for(home: Option<String>) -> (p: String)
    ensures
        p@ == config_path_under(
            match home {
                Some(h) => Some(h@),
                None => None,
            },
        ),
{
    match home {
        Some(h) => {
            let a = join_path(h.as_str(), ".config");
            let b = join_path(a.as_str(), "tinypng");
            join_path(b.as_str(), "config.toml")
        },
        None => String::from_str("tinypng_config.toml"),
    }
}

/// The configuration file path for what the environment says of the home
/// directory: `None` when there is none, `Some(None)` when it is not valid
/// Unicode (the path then holds its bytes and has no text form, so there is
/// no path as text), `Some(Some(h))` when it is the text `h`.
pub open spec fn config_path_outcome(home: Option<Option<Seq<char>>>) -> Option<Seq<char>> {
    match home {
        Some(Some(h)) => Some(config_path_under(Some(h))),
        Some(None) => None,
        None => Some(config_path_under(None)),
    }
}

pub open spec fn home_view(home: Option<Option<String>>) -> Option<Option<Seq<char>>> {
    match home {
        Some(Some(h)) => Some(Some(h@)),
        Some(None) => Some(None),
        None => None,
    }
}

pub open spec fn text_view(p: Option<String>) -> Option<Seq<char>> {
    match p {
        Some(t) => Some(t@),
        None => None,
    }
}

/// The configuration file path, as text, for what the environment says of
/// the home directory.
pub fn config_path_from(home: Option<Option<String>>) -> (p: Option<String>)
    ensures
        text_view(p) == config_path_outcome(home_view(home)),
{
    match home {
        Some(Some(h)) => Some(config_path_for(Some(h))),
        Some(None) => None,
        None => Some(config_path_for(None)),
    }
}

impl Config {
    /// The configuration file path: `~/.config/tinypng/config.toml` when
    /// the home directory is known, `tinypng_config.toml` otherwise, and
    /// `None` when the home directory is not valid Unicode, whose path has
    /// no text form. Which of these comes depends on the environment.
    pub fn path() -> (p: Option<String>)
        ensures
            exists|home: Option<Option<Seq<char>>>| text_view(p) == config_path_outcome(home),
    {
        let home = home_directory();
        let p = config_path_from(home);
        proof {
            assert(text_view(p) == config_path_outcome(home_view(home)));
        }
        p
    }
}

} // verus!

verus! {

/// The settings of a run: flags first, then the configuration file, then
/// the built-in defaults.
#[derive(Debug, Clone)]
pub struct RunConfig {
    pub concurrency: usize,
    pub overwrite: bool,
    pub min_size: u64,
    /// The extensions to compress, lowercase, each once.
    pub extensions: Vec<String>,
    pub skip_compressed: bool,
    pub output_dir: Option<String>,
    pub dry_run: bool,
    pub json: bool,
    pub quiet: bool,
    pub verbose: bool,
}

/// The extensions compressed by default.
pub open spec fn is_default_extension(t: Seq<char>) -> bool {
    t == "png"@ || t == "jpg"@ || t == "jpeg"@ || t == "webp"@
}

fn default_extensions() -> (v: Vec<String>)
    ensures
        texts_distinct(v@),
        forall|t: Seq<char>| text_in(v@, t) <==> is_default_extension(t),
{
    let all = vec![
        String::from_str("png"),
        String::from_str("jpg"),
        String::from_str("jpeg"),
        String::from_str("webp"),
    ];
    proof {
        assert forall|t: Seq<char>| text_in(all@, t) <==> is_default_extension(t) by {
            if is_default_extension(t) {
                if t == "png"@ {
                    assert(all@[0]@ == t);
                } else if t == "jpg"@ {
                    assert(all@[1]@ == t);
                } else if t == "jpeg"@ {
                    assert(all@[2]@ == t);
                } else {
                    assert(all@[3]@ == t);
                }
            }
        }
    }
    distinct_texts(all)
}

impl Default for RunConfig {
    /// Four workers, originals kept, files under 10 KiB skipped, the usual
    /// image extensions, `compressed_*` files skipped, output next to the
    /// originals, no dry run, human output.
    fn default() -> (c: RunConfig)
        ensures
            c.concurrency == 4,
            !c.overwrite,
            c.min_size == 10 * 1024,
            texts_distinct(c.extensions@),
            forall|t: Seq<char>| text_in(c.extensions@, t) <==> is_default_extension(t),
            c.skip_compressed,
            c.output_dir is None,
            !c.dry_run,
            !c.json,
            !c.quiet,
            !c.verbose,
    {
        RunConfig {
            concurrency: 4,
            overwrite: false,
            min_size: 10 * 1024,
            extensions: default_extensions(),
            skip_compressed: true,
            output_dir: None,
            dry_run: false,
            json: false,
            quiet: false,
            verbose: false,
        }
    }
}

impl RunConfig {
    /// Whether files with the (lowercase) extension `ext` are compressed.
    pub fn has_extension(&self, ext: &str) -> (b: bool)
        ensures
            b == text_in(self.extensions@, ext@),
    {
        contains_text(&self.extensions, ext)
    }
}

pub open spec fn opt_text(s: Option<String>) -> Option<Seq<char>> {
    match s {
        Some(t) => Some(t@),
        None => None,
    }
}

/// The size text in force: the flag's, else the configuration file's.
pub open spec fn min_size_source(cli: RunArgs, config: Config) -> Option<Seq<char>> {
    match cli.min_size {
        Some(s) => Some(s@),
        None => opt_text(config.min_size),
    }
}

/// The minimum size in force, or the message of the error its text gives.
pub open spec fn resolved_min_size(cli: RunArgs, config: Config) -> Result<u64, Seq<char>> {
    match min_size_source(cli, config) {
        Some(s) => size_outcome(unicode_lowercase(trim(s))),
        None => Ok(10240u64),
    }
}

/// The extensions in force: the flag's comma-separated list, each trimmed
/// and lowercased; else the configuration file's list, lowercased; `None`
/// when neither is given.
pub open spec fn extension_source(cli: RunArgs, config: Config) -> Option<Seq<Seq<char>>> {
    match cli.ext {
        Some(e) => Some(split_on(e@, ',').map_values(|p: Seq<char>| unicode_lowercase(trim(p)))),
        None => match config.extensions {
            Some(v) => Some(v@.map_values(|s: String| unicode_lowercase(s@))),
            None => None,
        },
    }
}

/// The position of the first path that does not exist.
pub open spec fn first_missing(exists: Seq<bool>) -> Option<int>
    decreases exists.len(),
{
    if exists.len() == 0 {
        None
    } else {
        match first_missing(exists.drop_last()) {
            Some(i) => Some(i),
            None => if !exists.last() {
                Some(exists.len() - 1)
            } else {
                None
            },
        }
    }
}

/// `c` holds the settings that `cli` and `config` give, with minimum size
/// `min_size`.
pub open spec fn settings_resolved(c: RunConfig, cli: RunArgs, config: Config, min_size: u64) -> bool {
    &&& c.concurrency == match cli.concurrency {
        Some(n) => n,
        None => match config.concurrency {
            Some(n) => n,
            None => 4,
        },
    }
    &&& c.overwrite == (cli.overwrite || config.overwrite == Some(true))
    &&& c.min_size == min_size
    &&& texts_distinct(c.extensions@)
    &&& forall|t: Seq<char>|
        text_in(c.extensions@, t) <==> match extension_source(cli, config) {
            Some(v) => v.contains(t),
            None => is_default_extension(t),
        }
    &&& c.skip_compressed == (!cli.no_skip_compressed && config.skip_compressed != Some(false))
    &&& c.output_dir == cli.output
    &&& c.dry_run == cli.dry_run
    &&& c.json == cli.json
    &&& c.quiet == cli.quiet
    &&& c.verbose == cli.verbose
}

fn lowered_pieces(list: &str) -> (v: Vec<String>)
    ensures
        v@.len() == split_on(list@, ',').len(),
        forall|i: int|
            0 <= i < v@.len() ==> #[trigger] v@[i]@ == unicode_lowercase(trim(split_on(list@, ',')[i])),
{
    let pieces = split_text(list, ',');
    let mut v: Vec<String> = Vec::new();
    let mut i: usize = 0;
    while i < pieces.len()
        invariant
            i <= pieces@.len(),
            pieces@.len() == split_on(list@, ',').len(),
            forall|j: int| 0 <= j < pieces@.len() ==> #[trigger] pieces@[j]@ == split_on(list@, ',')[j],
            v@.len() == i,
            forall|j: int| 0 <= j < i ==> #[trigger] v@[j]@ == unicode_lowercase(trim(split_on(list@, ',')[j])),
        decreases pieces@.len() - i,
    {
        let t = trimmed(pieces[i].as_str());
        v.push(lowercase(t.as_str()));
        i = i + 1;
    }
    v
}

fn lowered_all(values: &Vec<String>) -> (v: Vec<String>)
    ensures
        v@.len() == values@.len(),
        forall|i: int| 0 <= i < v@.len() ==> #[trigger] v@[i]@ == unicode_lowercase(values@[i]@),
{
    let mut v: Vec<String> = Vec::new();
    let mut i: usize = 0;
    while i < values.len()
        invariant
            i <= values@.len(),
            v@.len() == i,
            forall|j: int| 0 <= j < i ==> #[trigger] v@[j]@ == unicode_lowercase(values@[j]@),
        decreases values@.len() - i,
    {
        v.push(lowercase(values[i].as_str()));
        i = i + 1;
    }
    v
}

fn resolve_extensions(cli: &RunArgs, config: &Config) -> (v: Vec<String>)
    ensures
        texts_distinct(v@),
        forall|t: Seq<char>|
            text_in(v@, t) <==> match extension_source(*cli, *config) {
                Some(src) => src.contains(t),
                None => is_default_extension(t),
            },
{
    let source: Option<Vec<String>> = match &cli.ext {
        Some(e) => Some(lowered_pieces(e.as_str())),
        None => match &config.extensions {
            Some(values) => Some(lowered_all(values)),
            None => None,
        },
    };
    match source {
        Some(values) => {
            let ghost src = extension_source(*cli, *config).unwrap();
            proof {
                assert(values@.map_values(|s: String| s@) =~= src);
                assert forall|t: Seq<char>| text_in(values@, t) <==> src.contains(t) by {
                    if text_in(values@, t) {
                        let k = choose|k: int| 0 <= k < values@.len() && #[trigger] values@[k]@ == t;
                        assert(src[k] == t);
                    }
                    if src.contains(t) {
                        let k = choose|k: int| 0 <= k < src.len() && src[k] == t;
                        assert(values@[k]@ == t);
                    }
                }
            }
            distinct_texts(values)
        },
        None => default_extensions(),
    }
}

fn first_missing_path(path_exists: &[bool]) -> (r: Option<usize>)
    ensures
        r matches Some(i) ==> i < path_exists@.len() && first_missing(path_exists@) == Some(i as int),
        r is None ==> first_missing(path_exists@) is None,
{
    let mut i: usize = 0;
    while i < path_exists.len()
        invariant
            i <= path_exists@.len(),
            first_missing(path_exists@.take(i as int)) is None,
        decreases path_exists@.len() - i,
    {
        proof {
            assert(path_exists@.take(i + 1).drop_last() =~= path_exists@.take(i as int));
        }
        if !path_exists[i] {
            proof {
                lemma_first_missing_prefix(path_exists@, i as int);
            }
            return Some(i);
        }
        i = i + 1;
    }
    proof {
        assert(path_exists@.take(path_exists@.len() as int) =~= path_exists@);
    }
    None
}

proof fn lemma_first_missing_prefix(s: Seq<bool>, i: int)
    requires
        0 <= i < s.len(),
        first_missing(s.take(i)) is None,
        !s[i],
    ensures
        first_missing(s) == Some(i),
    decreases s.len() - i,
{
    if i + 1 < s.len() {
        assert(s.take(i + 1).drop_last() =~= s.take(i));
        lemma_first_missing_extends(s, i + 1);
    } else {
        assert(s.take(i) =~= s.drop_last());
    }
}

proof fn lemma_first_missing_extends(s: Seq<bool>, k: int)
    requires
        0 < k <= s.len(),
        first_missing(s.take(k)) is Some,
    ensures
        first_missing(s) == first_missing(s.take(k)),
    decreases s.len() - k,
{
    if k < s.len() {
        assert(s.take(k + 1).drop_last() =~= s.take(k));
        lemma_first_missing_extends(s, k + 1);
    } else {
        assert(s.take(k) =~= s);
    }
}

/// Flags over the configuration file over the defaults: `--overwrite`
/// always overwrites and, without it, the file's `overwrite` decides
/// (default off); `--concurrency` and `--no-skip-compressed` win over the
/// file; with `--ext` the extensions are exactly the flag's comma-separated
/// pieces, trimmed and lowercased, whatever the file lists; without it the
/// file's list, lowercased, and without either the defaults.
pub proof fn law_flags_override_config(c: RunConfig, cli: RunArgs, config: Config, min_size: u64)
    requires
        settings_resolved(c, cli, config, min_size),
    ensures
        cli.overwrite ==> c.overwrite,
        !cli.overwrite ==> c.overwrite == (config.overwrite == Some(true)),
        cli.concurrency matches Some(n) ==> c.concurrency == n,
        cli.no_skip_compressed ==> !c.skip_compressed,
        cli.ext matches Some(e) ==> forall|t: Seq<char>|
            text_in(c.extensions@, t) <==> exists|i: int|
                0 <= i < split_on(e@, ',').len() && unicode_lowercase(trim(#[trigger] split_on(e@, ',')[i])) == t,
        cli.ext is None ==> (config.extensions matches Some(v) ==> forall|t: Seq<char>|
            text_in(c.extensions@, t) <==> exists|i: int| 0 <= i < v@.len() && unicode_lowercase(#[trigger] v@[i]@) == t),
        cli.ext is None && config.extensions is None ==> forall|t: Seq<char>|
            text_in(c.extensions@, t) <==> (t == "png"@ || t == "jpg"@ || t == "jpeg"@ || t == "webp"@),
{
    match cli.ext {
        Some(e) => {
            let src = split_on(e@, ',').map_values(|p: Seq<char>| unicode_lowercase(trim(p)));
            assert forall|t: Seq<char>| text_in(c.extensions@, t) <==> exists|i: int|
                0 <= i < split_on(e@, ',').len() && unicode_lowercase(trim(#[trigger] split_on(e@, ',')[i])) == t by {
                if text_in(c.extensions@, t) {
                    assert(src.contains(t));
                    let i = choose|i: int| 0 <= i < src.len() && src[i] == t;
                    assert(unicode_lowercase(trim(split_on(e@, ',')[i])) == t);
                }
                if exists|i: int| 0 <= i < split_on(e@, ',').len() && unicode_lowercase(trim(#[trigger] split_on(e@, ',')[i])) == t {
                    let i = choose|i: int| 0 <= i < split_on(e@, ',').len() && unicode_lowercase(trim(#[trigger] split_on(e@, ',')[i])) == t;
                    assert(src[i] == t);
                    assert(src.contains(t));
                }
            }
        },
        None => match config.extensions {
            Some(v) => {
                let src = v@.map_values(|s: String| unicode_lowercase(s@));
                assert forall|t: Seq<char>| text_in(c.extensions@, t) <==> exists|i: int|
                    0 <= i < v@.len() && unicode_lowercase(#[trigger] v@[i]@) == t by {
                    if text_in(c.extensions@, t) {
                        assert(src.contains(t));
                        let i = choose|i: int| 0 <= i < src.len() && src[i] == t;
                        assert(unicode_lowercase(v@[i]@) == t);
                    }
                    if exists|i: int| 0 <= i < v@.len() && unicode_lowercase(#[trigger] v@[i]@) == t {
                        let i = choose|i: int| 0 <= i < v@.len() && unicode_lowercase(#[trigger] v@[i]@) == t;
                        assert(src[i] == t);
                        assert(src.contains(t));
                    }
                }
            },
            None => {},
        },
    }
}

impl RunConfig {
    /// The settings of a run from the flags `cli`, the configuration file
    /// `config` and the built-in defaults, in that order of precedence.
    /// `path_exists[i]` tells whether `paths[i]` exists. Fails when the
    /// minimum size in force cannot be read, and otherwise when a path
    /// does not exist (naming the first such path).
    pub fn resolve(cli: &RunArgs, paths: &[String], path_exists: &[bool], config: &Config) -> (r: Result<
        RunConfig,
        ShrinkError,
    >)
        requires
            paths@.len() == path_exists@.len(),
        ensures
            match resolved_min_size(*cli, *config) {
                Err(m) => r matches Err(ShrinkError::BadArgument(msg)) && msg@ == m,
                Ok(min_size) => match first_missing(path_exists@) {
                    Some(i) => r matches Err(ShrinkError::BadArgument(msg)) && msg@
                        == "path does not exist: "@ + paths@[i]@,
                    None => r matches Ok(c) && settings_resolved(c, *cli, *config, min_size),
                },
            },
            r matches Ok(c) ==> {
                &&& cli.overwrite ==> c.overwrite
                &&& !cli.overwrite ==> c.overwrite == (config.overwrite == Some(true))
                &&& cli.concurrency matches Some(n) ==> c.concurrency == n
                &&& cli.no_skip_compressed ==> !c.skip_compressed
                &&& cli.ext matches Some(e) ==> forall|t: Seq<char>|
                    text_in(c.extensions@, t) <==> exists|i: int|
                        0 <= i < split_on(e@, ',').len() && unicode_lowercase(trim(#[trigger] split_on(e@, ',')[i])) == t
            },
    {
        let concurrency = match cli.concurrency {
            Some(n) => n,
            None => match config.concurrency {
                Some(n) => n,
                None => 4,
            },
        };
        let overwrite = if cli.overwrite {
            true
        } else {
            match config.overwrite {
                Some(b) => b,
                None => false,
            }
        };
        let min_size_text: Option<&String> = match &cli.min_size {
            Some(s) => Some(s),
            None => match &config.min_size {
                Some(s) => Some(s),
                None => None,
            },
        };
        let min_size = match min_size_text {
            Some(s) => {
                match parse_size(s.as_str()) {
                    Ok(v) => v,
                    Err(e) => return Err(e),
                }
            },
            None => 10 * 1024,
        };
        assert(resolved_min_size(*cli, *config) == Ok::<u64, Seq<char>>(min_size));
        let extensions = resolve_extensions(cli, config);
        let skip_compressed = if cli.no_skip_compressed {
            false
        } else {
            match config.skip_compressed {
                Some(b) => b,
                None => true,
            }
        };
        match first_missing_path(path_exists) {
            Some(i) => {
                let mut m = String::from_str("path does not exist: ");
                m.append(paths[i].as_str());
                assert(first_missing(path_exists@) == Some(i as int));
                assert(m@ == "path does not exist: "@ + paths@[i as int]@);
                return Err(ShrinkError::BadArgument(m));
            },
            None => {},
        }
        let c = RunConfig {
            concurrency,
            overwrite,
            min_size,
            extensions,
            skip_compressed,
            output_dir: cli.output.clone(),
            dry_run: cli.dry_run,
            json: cli.json,
            quiet: cli.quiet,
            verbose: cli.verbose,
        };
        proof {
            law_flags_override_config(c, *cli, *config, min_size);
        }
        Ok(c)
    }
}

} // verus!
