//! Run-time tests of the size conditions the network and the training loop ask for: that
//! every buffer a batch needs has a length that fits in `usize`.
use vstd::prelude::*;
use crate::compute::kernels::ConvShape;
use crate::compute::tensor::{shape_fits, shape_product};
use crate::config::ModelConfig;
use crate::training::network::{batch_ok, stage1_shape, stage2_shape, conv1_weight_shape, conv2_weight_shape};
use crate::training::trainer::batches_fit;
use crate::training::graph::conv_shape_of;

verus! {

/// Whether `a * b` fits in `usize`, for `a` that does.
fn product_fits(a: u128, b: u128) -> (ok: bool)
    requires
        a <= usize::MAX,
        b <= 0xffff_ffff_ffff_ffff_ffff_ffff_ffff_ffff,
    ensures
        ok == (a * b <= usize::MAX),
{
    if a == 0 || b == 0 {
        assert(a * b == 0) by (nonlinear_arith)
            requires
                a == 0 || b == 0,
        ;
        true
    } else if b > usize::MAX as u128 {
        assert(a * b >= b) by (nonlinear_arith)
            requires
                a >= 1,
                b >= 1,
        ;
        false
    } else {
        assert(a * b <= 0xffff_ffff_ffff_ffff * 0xffff_ffff_ffff_ffff) by (nonlinear_arith)
            requires
                a <= 0xffff_ffff_ffff_ffff,
                b <= 0xffff_ffff_ffff_ffff,
        ;
        a * b <= usize::MAX as u128
    }
}

/// `a * b` for two `usize` values, without overflow.
fn wide_product(a: usize, b: usize) -> (r: u128)
    ensures
        r == a * b,
{
    assert(a * b <= 0xffff_ffff_ffff_ffff * 0xffff_ffff_ffff_ffff) by (nonlinear_arith)
        requires
            a <= 0xffff_ffff_ffff_ffff,
            b <= 0xffff_ffff_ffff_ffff,
    ;
    (a as u128) * (b as u128)
}

/// Whether the convolution geometry `s` is well formed (`ConvShape::wf`).
pub fn conv_shape_fits(s: ConvShape) -> (ok: bool)
    ensures
        ok == s.wf(),
{
    let hp: u128 = s.h as u128 + 2 * (s.padding as u128);
    let wp: u128 = s.w as u128 + 2 * (s.padding as u128);
    let max = usize::MAX as u128;
    if hp > max || wp > max || (s.kernel as u128) > hp || (s.kernel as u128) > wp {
        return false;
    }
    if s.h_out as u128 != hp - s.kernel as u128 + 1 || s.w_out as u128 != wp - s.kernel as u128 + 1 {
        return false;
    }
    let n_cin = wide_product(s.n, s.c_in);
    let n_cout = wide_product(s.n, s.c_out);
    let cout_cin = wide_product(s.c_out, s.c_in);
    if n_cin > max || n_cout > max || cout_cin > max {
        return false;
    }
    if !product_fits(n_cout, s.h_out as u128) {
        return false;
    }
    let hw = wide_product(s.h, s.w);
    let hw_out = wide_product(s.h_out, s.w_out);
    let kk = wide_product(s.kernel, s.kernel);
    product_fits(n_cin, hw) && product_fits(n_cout, hw_out) && product_fits(cout_cin, kk)
}

/// Whether the product of `a, b, c, d` and of each of its prefixes fits in `usize`.
fn shape4_fits(a: usize, b: usize, c: usize, d: usize) -> (ok: bool)
    ensures
        ok == shape_fits(seq![a, b, c, d]),
{
    let ghost s = seq![a, b, c, d];
    assert(s.take(0) =~= seq![]);
    assert(s.take(1) =~= seq![a]);
    assert(s.take(2) =~= seq![a, b]);
    assert(s.take(3) =~= seq![a, b, c]);
    assert(s.take(4) =~= s);
    assert(seq![a].drop_last() =~= seq![]);
    assert(seq![a, b].drop_last() =~= seq![a]);
    assert(seq![a, b, c].drop_last() =~= seq![a, b]);
    assert(s.drop_last() =~= seq![a, b, c]);
    assert(shape_product(s.take(0)) == 1);
    assert(shape_product(s.take(1)) == a);
    assert(shape_product(s.take(2)) == a * b);
    assert(shape_product(s.take(3)) == (a * b) * c);
    assert(shape_product(s.take(4)) == ((a * b) * c) * d);
    let ab = wide_product(a, b);
    if ab > usize::MAX as u128 {
        assert(!(shape_product(s.take(2)) <= usize::MAX));
        return false;
    }
    if !product_fits(ab, c as u128) {
        assert(!(shape_product(s.take(3)) <= usize::MAX));
        return false;
    }
    let abc = ab * (c as u128);
    let ok = product_fits(abc, d as u128);
    proof {
        if ok {
            assert forall|k: int| 0 <= k <= s.len() implies #[trigger] shape_product(s.take(k)) <= usize::MAX by {
                if k == 0 {
                } else if k == 1 {
                } else if k == 2 {
                } else if k == 3 {
                } else {
                }
            }
        } else {
            assert(!(shape_product(s.take(4)) <= usize::MAX));
        }
    }
    ok
}

/// Whether a batch of `n` images of the configuration `cfg` can be stacked and run
/// (`batch_ok`, and the `[n, channels, height, width]` shape fits).
pub fn batch_fits(cfg: ModelConfig, n: usize) -> (ok: bool)
    ensures
        ok == (batch_ok(cfg, n) && shape_fits(seq![n, cfg.input_channels, cfg.input_height, cfg.input_width])),
{
    if n == 0 {
        return false;
    }
    if !shape4_fits(n, cfg.input_channels, cfg.input_height, cfg.input_width) {
        return false;
    }
    let k = cfg.conv_kernel;
    let p = cfg.conv_padding;
    let hp: u128 = cfg.input_height as u128 + 2 * (p as u128);
    let wp: u128 = cfg.input_width as u128 + 2 * (p as u128);
    if (k as u128) > hp + 1 || (k as u128) > wp + 1 || hp + 1 - (k as u128) > usize::MAX as u128 || wp + 1 - (k as u128) > usize::MAX as u128 {
        let ghost s1 = stage1_shape(cfg, n);
        assert(!s1.wf());
        return false;
    }
    let s1 = ConvShape {
        n,
        c_in: cfg.input_channels,
        h: cfg.input_height,
        w: cfg.input_width,
        c_out: cfg.conv_out_channels,
        h_out: (hp + 1 - (k as u128)) as usize,
        w_out: (wp + 1 - (k as u128)) as usize,
        kernel: k,
        padding: p,
    };
    proof {
        let t = stage1_shape(cfg, n);
        assert(conv1_weight_shape(cfg)[2] == k);
        assert(t.h_out == s1.h_out);
        assert(t.w_out == s1.w_out);
        assert(t == s1);
    }
    if !conv_shape_fits(s1) {
        return false;
    }
    match cfg.conv2_out_channels {
        Some(c2) => {
            let h2 = s1.h_out / 2;
            let w2 = s1.w_out / 2;
            let hp2: u128 = h2 as u128 + 2 * (p as u128);
            let wp2: u128 = w2 as u128 + 2 * (p as u128);
            if (k as u128) > hp2 + 1 || (k as u128) > wp2 + 1 || hp2 + 1 - (k as u128) > usize::MAX as u128 || wp2 + 1 - (k as u128) > usize::MAX as u128 {
                let ghost s2 = stage2_shape(cfg, n, c2);
                assert(!s2.wf());
                return false;
            }
            let s2 = ConvShape {
                n,
                c_in: cfg.conv_out_channels,
                h: h2,
                w: w2,
                c_out: c2,
                h_out: (hp2 + 1 - (k as u128)) as usize,
                w_out: (wp2 + 1 - (k as u128)) as usize,
                kernel: k,
                padding: p,
            };
            proof {
                let t = stage2_shape(cfg, n, c2);
                assert(conv2_weight_shape(cfg, c2)[2] == k);
                assert(t.h_out == s2.h_out);
                assert(t.w_out == s2.w_out);
                assert(t == s2);
            }
            if !conv_shape_fits(s2) {
                return false;
            }
        },
        None => {},
    }
    wide_product(n, cfg.num_classes) <= usize::MAX as u128
}

/// Whether every batch of up to `batch_size` images can be stacked and run
/// (`batches_fit`).
pub fn batches_fit_check(cfg: ModelConfig, batch_size: usize) -> (ok: bool)
    ensures
        ok == batches_fit(cfg, batch_size),
{
    let mut m: usize = 1;
    while m <= batch_size
        invariant
            1 <= m,
            m <= batch_size + 1,
            forall|q: usize| 1 <= q < m ==> {
                &&& #[trigger] batch_ok(cfg, q)
                &&& shape_fits(seq![q, cfg.input_channels, cfg.input_height, cfg.input_width])
            },
        decreases batch_size + 1 - m,
    {
        if !batch_fits(cfg, m) {
            return false;
        }
        let ghost m0 = m;
        assert(batch_ok(cfg, m0));
        assert(shape_fits(seq![m0, cfg.input_channels, cfg.input_height, cfg.input_width]));
        if m == usize::MAX {
            assert forall|q: usize| 1 <= q <= batch_size implies {
                &&& #[trigger] batch_ok(cfg, q)
                &&& shape_fits(seq![q, cfg.input_channels, cfg.input_height, cfg.input_width])
            } by {
                if q < m0 {
                    assert(batch_ok(cfg, q));
                    assert(shape_fits(seq![q, cfg.input_channels, cfg.input_height, cfg.input_width]));
                } else {
                    assert(q == m0);
                }
            }
            assert(batches_fit(cfg, batch_size));
            return true;
        }
        m = m + 1;
        assert forall|q: usize| 1 <= q < m implies {
            &&& #[trigger] batch_ok(cfg, q)
            &&& shape_fits(seq![q, cfg.input_channels, cfg.input_height, cfg.input_width])
        } by {
            if q < m0 {
                assert(batch_ok(cfg, q));
                assert(shape_fits(seq![q, cfg.input_channels, cfg.input_height, cfg.input_width]));
            }
        }
    }
    true
}

} // verus!
