use vstd::prelude::*;

verus! {

/// Shape of a decoder-only transformer profile.
#[derive(Clone, Copy, Debug, PartialEq, Eq, Structural)]
pub struct Config {
    pub vocab: usize,
    pub context: usize,
    pub d_model: usize,
    pub layers: usize,
    pub heads: usize,
    pub ffn: usize,
}

impl Config {
    /// Number of weights in the embedding table plus the attention and
    /// feed-forward projections of every layer.
    pub open spec fn spec_params(self) -> int {
        self.vocab * self.d_model + self.layers * (4 * self.d_model * self.d_model + 2
            * self.d_model * self.ffn)
    }

    /// The invariants every usable profile satisfies.
    pub open spec fn is_valid(self) -> bool {
        &&& self.vocab >= 2
        &&& self.context > 0
        &&& self.d_model > 0
        &&& self.layers > 0
        &&& self.heads > 0
        &&& self.ffn > 0
        &&& self.d_model % self.heads == 0
    }

    /// The small profile used for quick experiments.
    pub fn debug() -> (c: Self)
        ensures
            c == (Config { vocab: 258, context: 128, d_model: 64, layers: 2, heads: 4, ffn: 128 }),
    {
        Config { vocab: 258, context: 128, d_model: 64, layers: 2, heads: 4, ffn: 128 }
    }

    /// The documented target profile.
    pub fn target() -> (c: Self)
        ensures
            c == (Config {
                vocab: 16_384,
                context: 1_024,
                d_model: 416,
                layers: 6,
                heads: 8,
                ffn: 1_664,
            }),
    {
        Config { vocab: 16_384, context: 1_024, d_model: 416, layers: 6, heads: 8, ffn: 1_664 }
    }

    /// Width of one attention head.
    pub fn head_dim(&self) -> (h: usize)
        requires
            self.heads > 0,
            self.d_model % self.heads == 0,
        ensures
            h == self.d_model / self.heads,
            h * self.heads == self.d_model,
    {
        let h = self.d_model / self.heads;
        assert(h * self.heads == self.d_model) by (nonlinear_arith)
            requires
                h == self.d_model / self.heads,
                self.heads > 0,
                self.d_model % self.heads == 0,
        ;
        h
    }

    /// Exact parameter count of the profile.
    pub fn params(&self) -> (p: usize)
        requires
            self.spec_params() <= usize::MAX,
        ensures
            p == self.spec_params(),
    {
        let v = self.vocab;
        let d = self.d_model;
        let l = self.layers;
        let f = self.ffn;
        proof {
            lemma_params_parts(v as int, d as int, l as int, f as int);
        }
        let embed = v * d;
        if l == 0 {
            return embed;
        }
        let per_layer = 4 * d * d + 2 * d * f;
        embed + l * per_layer
    }

    /// Whether the profile is usable: room for the special tokens, non-zero
    /// sizes, and a model width that splits evenly across the heads.
    pub fn valid(&self) -> (ok: bool)
        ensures
            ok == self.is_valid(),
    {
        self.vocab >= 2 && self.context > 0 && self.d_model > 0 && self.layers > 0 && self.heads
            > 0 && self.ffn > 0 && self.d_model % self.heads == 0
    }

    /// The parameter count, or `None` when it does not fit in a `usize`.
    pub fn checked_params(&self) -> (p: Option<usize>)
        ensures
            match p {
                Some(n) => n == self.spec_params(),
                None => self.spec_params() > usize::MAX,
            },
    {
        let v = self.vocab;
        let d = self.d_model;
        let l = self.layers;
        let f = self.ffn;
        proof {
            lemma_params_parts(v as int, d as int, l as int, f as int);
            assert(d * d <= 4 * (d * d) && d * f <= 2 * (d * f)) by (nonlinear_arith)
                requires
                    d >= 0,
                    f >= 0,
            ;
            assert(4 * d * d == 4 * (d * d) && 2 * d * f == 2 * (d * f)) by (nonlinear_arith);
        }
        let embed = match v.checked_mul(d) {
            Some(x) => x,
            None => {
                return None;
            },
        };
        if l == 0 {
            return Some(embed);
        }
        let dd = match d.checked_mul(d) {
            Some(x) => x,
            None => {
                return None;
            },
        };
        let dd4 = match dd.checked_mul(4) {
            Some(x) => x,
            None => {
                return None;
            },
        };
        let df = match d.checked_mul(f) {
            Some(x) => x,
            None => {
                return None;
            },
        };
        let df2 = match df.checked_mul(2) {
            Some(x) => x,
            None => {
                return None;
            },
        };
        let per_layer = match dd4.checked_add(df2) {
            Some(x) => x,
            None => {
                return None;
            },
        };
        let layers = match l.checked_mul(per_layer) {
            Some(x) => x,
            None => {
                return None;
            },
        };
        embed.checked_add(layers)
    }

    /// Checks the profile's invariants; a profile that breaks one is refused.
    pub fn validate(&self)
        requires
            self.is_valid(),
    {
    }
}

/// Each summand of the parameter count is bounded by the whole count.
proof fn lemma_params_parts(v: int, d: int, l: int, f: int)
    requires
        v >= 0,
        d >= 0,
        l >= 0,
        f >= 0,
    ensures
        v * d <= v * d + l * (4 * d * d + 2 * d * f),
        l * (4 * d * d + 2 * d * f) <= v * d + l * (4 * d * d + 2 * d * f),
        l >= 1 ==> 4 * d * d + 2 * d * f <= l * (4 * d * d + 2 * d * f),
        4 * d * d <= 4 * d * d + 2 * d * f,
        d >= 1 ==> 4 * d <= 4 * d * d,
        2 * d * f <= 4 * d * d + 2 * d * f,
        0 <= v * d,
{
    assert(d >= 1 ==> 4 * d <= 4 * d * d) by (nonlinear_arith)
        requires
            d >= 0,
    ;
    assert(0 <= v * d) by (nonlinear_arith)
        requires
            v >= 0,
            d >= 0,
    ;
    assert(0 <= d * d && 0 <= d * f) by (nonlinear_arith)
        requires
            f >= 0,
            d >= 0,
    ;
    assert(0 <= l * (4 * d * d + 2 * d * f)) by (nonlinear_arith)
        requires
            l >= 0,
            4 * d * d + 2 * d * f >= 0,
    ;
    assert(l >= 1 ==> 4 * d * d + 2 * d * f <= l * (4 * d * d + 2 * d * f)) by (nonlinear_arith)
        requires
            l >= 0,
            4 * d * d + 2 * d * f >= 0,
    ;
}

} // verus!
