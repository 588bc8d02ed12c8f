//! The terrain profile: base fill material, ordered surface layers, a noise
//! expression, and the world column height; and the textual configuration
//! it is parsed from.

use vstd::prelude::*;

use crate::column::BlockId;
use crate::noise_builder::NoiseBuilder;
use crate::noise_builder::NoiseExpr;
use crate::noise_builder::ParseError;
use crate::noise_builder::ParseErrorView;
use crate::noise_builder::all_digits;
use crate::noise_builder::is_digit;
use crate::noise_builder::is_float_lit;
use crate::noise_builder::is_mantissa;
use crate::noise_builder::strip_sign;

verus! {

/// A parsed, ready-to-use terrain profile. Replaced wholesale on reload,
/// never mutated in place.
pub struct TerrainGenConfig {
    /// The base fill material below the surface layers.
    pub block: BlockId,
    /// Surface layers ordered from deepest (first) to topmost (last).
    pub surface_layers: Vec<(u16, BlockId)>,
    /// The noise expression giving the height field.
    pub noise: NoiseBuilder,
    /// The world column height in cells.
    pub height: u32,
}

impl TerrainGenConfig {
    /// Every numeric token in the noise tree is valid.
    pub open spec fn wf(&self) -> bool {
        self.noise.wf()
    }
}

impl Default for TerrainGenConfig {
    /// A plain default profile: one single-cell surface layer over a base
    /// fill, a flat height field at 64, and a 384-cell column. The material
    /// identifiers are for the host's palette to interpret.
    fn default() -> (r: Self)
        ensures
            r.block == BlockId(10u16),
            r.surface_layers@ =~= seq![(1u16, BlockId(9u16))],
            r.noise@ == NoiseExpr::Constant("64"@),
            r.height == 384,
            r.wf(),
    {
        proof {
            reveal_strlit("64");
            assert(is_float_lit("64"@)) by {
                assert("64"@.len() == 2);
                assert(strip_sign("64"@) =~= "64"@);
                assert(is_digit("64"@[0]) && is_digit("64"@[1]));
                assert(all_digits("64"@));
                assert(is_mantissa("64"@));
            }
        }
        let mut surface_layers: Vec<(u16, BlockId)> = Vec::new();
        surface_layers.push((1, BlockId(9)));
        TerrainGenConfig {
            block: BlockId(10),
            surface_layers,
            noise: NoiseBuilder::Constant("64".to_owned()),
            height: 384,
        }
    }
}

/// Why a textual configuration was rejected.
#[derive(Debug)]
pub enum ConfigError {
    /// A material identifier the registry does not know.
    InvalidBlock(String),
    /// A noise expression that does not parse.
    Expr(ParseError),
}

/// The mathematical shape of a configuration error.
pub enum ConfigErrorView {
    InvalidBlock(Seq<char>),
    Expr(ParseErrorView),
}

impl ConfigError {
    pub open spec fn view(&self) -> ConfigErrorView {
        match self {
            ConfigError::InvalidBlock(s) => ConfigErrorView::InvalidBlock(s@),
            ConfigError::Expr(e) => ConfigErrorView::Expr(e@),
        }
    }
}

/// The host's mapping from material identifiers to material values. The
/// earliest registration of a name wins.
pub struct BlockRegistry {
    entries: Vec<(String, BlockId)>,
}

/// The first entry from `i` on whose name reads `name`.
pub open spec fn lookup_from(s: Seq<(String, BlockId)>, i: int, name: Seq<char>) -> Option<
    BlockId,
>
    decreases s.len() - i,
{
    if i < 0 || i >= s.len() {
        None
    } else if s[i].0@ == name {
        Some(s[i].1)
    } else {
        lookup_from(s, i + 1, name)
    }
}

impl BlockRegistry {
    /// The material registered under `name`, if any.
    pub closed spec fn spec_lookup(&self, name: Seq<char>) -> Option<BlockId> {
        lookup_from(self.entries@, 0, name)
    }

    pub fn new() -> (r: Self)
        ensures
            forall|n: Seq<char>| r.spec_lookup(n) is None,
    {
        BlockRegistry { entries: Vec::new() }
    }

    /// Register a material identifier; an existing registration of the same
    /// name is shadowed.
    pub fn register(&mut self, name: String, id: BlockId)
        ensures
            forall|n: Seq<char>|
                #[trigger] final(self).spec_lookup(n) == if n == name@ {
                    Some(id)
                } else {
                    old(self).spec_lookup(n)
                },
    {
        let ghost orig = self.entries@;
        self.entries.insert(0, (name, id));
        proof {
            assert(self.entries@.drop_first() =~= orig);
            assert forall|n: Seq<char>|
                #[trigger] self.spec_lookup(n) == if n == name@ {
                    Some(id)
                } else {
                    lookup_from(orig, 0, n)
                } by {
                lemma_lookup_shift(self.entries@, n);
            }
        }
    }

    /// Look a material identifier up.
    pub fn lookup(&self, name: &String) -> (r: Option<BlockId>)
        ensures
            r == self.spec_lookup(name@),
    {
        let mut i: usize = 0;
        while i < self.entries.len()
            invariant
                i <= self.entries.len(),
                lookup_from(self.entries@, 0, name@) == lookup_from(
                    self.entries@,
                    i as int,
                    name@,
                ),
            decreases self.entries.len() - i,
        {
            if self.entries[i].0 == *name {
                return Some(self.entries[i].1);
            }
            i = i + 1;
        }
        None
    }
}

/// Looking up from the head of an extended registry either hits the new
/// head or falls through to the old entries.
proof fn lemma_lookup_shift(s: Seq<(String, BlockId)>, n: Seq<char>)
    requires
        s.len() > 0,
    ensures
        lookup_from(s, 0, n) == if s[0].0@ == n {
            Some(s[0].1)
        } else {
            lookup_from(s.drop_first(), 0, n)
        },
{
    if s[0].0@ != n {
        lemma_lookup_suffix(s, 1, n);
    }
}

/// Looking up from index `i` equals looking up the suffix from its head.
proof fn lemma_lookup_suffix(s: Seq<(String, BlockId)>, i: int, n: Seq<char>)
    requires
        0 < i <= s.len(),
    ensures
        lookup_from(s, i, n) == lookup_from(s.subrange(1, s.len() as int), i - 1, n),
    decreases s.len() - i,
{
    let t = s.subrange(1, s.len() as int);
    if i < s.len() {
        assert(t[i - 1] == s[i]);
        lemma_lookup_suffix(s, i + 1, n);
    }
}

/// A material identifier resolved against the registry, with the error the
/// configuration reports for an unknown one.
pub fn block_from_str(registry: &BlockRegistry, s: &String) -> (r: Result<BlockId, ConfigError>)
    ensures
        (match r {
            Ok(b) => registry.spec_lookup(s@) == Some(b),
            Err(e) => registry.spec_lookup(s@) is None && e@ == ConfigErrorView::InvalidBlock(
                s@,
            ),
        }),
{
    match registry.lookup(s) {
        Some(b) => Ok(b),
        None => Err(ConfigError::InvalidBlock(s.clone())),
    }
}

/// The surface layers resolved front to back: the first unknown identifier
/// fails the whole list.
pub open spec fn spec_parse_layers(reg: &BlockRegistry, layers: Seq<(u16, Seq<char>)>) -> Result<
    Seq<(u16, BlockId)>,
    ConfigErrorView,
>
    decreases layers.len(),
{
    if layers.len() == 0 {
        Ok(Seq::empty())
    } else {
        match reg.spec_lookup(layers[0].1) {
            Some(b) => match spec_parse_layers(reg, layers.drop_first()) {
                Ok(rest) => Ok(seq![(layers[0].0, b)] + rest),
                Err(e) => Err(e),
            },
            None => Err(ConfigErrorView::InvalidBlock(layers[0].1)),
        }
    }
}

/// The textual form of a profile, as the host reads it from configuration:
/// material identifiers by name, the noise expression as source text.
pub struct SerializableTerrainGenConfig {
    pub block: String,
    pub surface_layers: Vec<(u16, String)>,
    pub noise: String,
    pub height: u32,
}

impl SerializableTerrainGenConfig {
    /// Resolve the textual configuration into a usable profile: every layer
    /// identifier in order, then the base identifier, then the noise
    /// expression; the first failure is reported and nothing is defaulted.
    pub fn parse(self, registry: &BlockRegistry) -> (r: Result<TerrainGenConfig, ConfigError>)
        ensures
            (match r {
                Ok(cfg) => spec_parse_layers(registry, self.surface_layers.deep_view()) == Ok::<
                    Seq<(u16, BlockId)>,
                    ConfigErrorView,
                >(cfg.surface_layers@) && registry.spec_lookup(self.block@) == Some(cfg.block)
                    && crate::noise_builder::spec_parse(self.noise@) == Ok::<
                    NoiseExpr,
                    ParseErrorView,
                >(cfg.noise@) && cfg.wf() && cfg.height == self.height,
                Err(e) => (match spec_parse_layers(registry, self.surface_layers.deep_view()) {
                    Err(le) => e@ == le,
                    Ok(_) => if registry.spec_lookup(self.block@) is None {
                        e@ == ConfigErrorView::InvalidBlock(self.block@)
                    } else {
                        (match crate::noise_builder::spec_parse(self.noise@) {
                            Err(pe) => e@ == ConfigErrorView::Expr(pe),
                            Ok(_) => false,
                        })
                    },
                }),
            }),
    {
        let ghost full = self.surface_layers.deep_view();
        let mut surface_layers: Vec<(u16, BlockId)> = Vec::new();
        let mut i: usize = 0;
        proof {
            assert(full.len() == self.surface_layers.len());
            assert(full.skip(0) =~= full);
            assert(surface_layers@ + Seq::<(u16, BlockId)>::empty() =~= surface_layers@);
        }
        while i < self.surface_layers.len()
            invariant
                i <= self.surface_layers.len(),
                full == self.surface_layers.deep_view(),
                full.len() == self.surface_layers.len(),
                spec_parse_layers(registry, full) == (match spec_parse_layers(
                    registry,
                    full.skip(i as int),
                ) {
                    Ok(rest) => Ok::<Seq<(u16, BlockId)>, ConfigErrorView>(
                        surface_layers@ + rest,
                    ),
                    Err(e) => Err(e),
                }),
            decreases self.surface_layers.len() - i,
        {
            let (amt, name) = (self.surface_layers[i].0, &self.surface_layers[i].1);
            proof {
                assert(full[i as int] == (self.surface_layers[i as int].0, self.surface_layers[
                    i as int
                ].1@));
                assert(full.skip(i as int)[0] == full[i as int]);
                assert(full.skip(i as int).drop_first() =~= full.skip(i as int + 1));
            }
            match block_from_str(registry, name) {
                Ok(block) => {
                    let ghost acc0 = surface_layers@;
                    surface_layers.push((amt, block));
                    proof {
                        assert(surface_layers@ =~= acc0.push((amt, block)));
                        assert forall|rest: Seq<(u16, BlockId)>|
                            acc0 + (seq![(amt, block)] + rest) =~= surface_layers@ + rest by {}
                    }
                },
                Err(e) => {
                    return Err(e);
                },
            }
            i = i + 1;
        }
        proof {
            assert(full.skip(i as int) =~= Seq::<(u16, Seq<char>)>::empty());
            assert(surface_layers@ + Seq::<(u16, BlockId)>::empty() =~= surface_layers@);
        }
        let block = match block_from_str(registry, &self.block) {
            Ok(b) => b,
            Err(e) => {
                return Err(e);
            },
        };
        let noise = match NoiseBuilder::parse(self.noise.as_str()) {
            Ok(t) => t,
            Err(e) => {
                return Err(ConfigError::Expr(e));
            },
        };
        Ok(TerrainGenConfig { block, surface_layers, noise, height: self.height })
    }
}

} // verus!
