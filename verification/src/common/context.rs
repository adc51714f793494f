//! Context modelling for the adaptive range coder.
//!
//! Each residual is coded in a context that follows from the magnitudes of its neighbours: the
//! residuals to its left, above, above left and above right, as far as they are already coded.

use vstd::prelude::*;
use crate::common::error::{CrfError, CrfResult};

verus! {

/// Number of contexts: eight for the kind of symbol, eight times four for the digits of a
/// magnitude, eight times two for the sign, four for run lengths.
pub const N_CTX: usize = 60;

pub const CTX_VAL_Q: usize = 8;

pub const CTX_SIGN: usize = 40;

pub const CTX_RUN_LEAD: usize = 56;

/// Number of inner nodes of a context tree.
pub const MA_NODES: usize = 7;

/// Length in bytes of a stored context tree.
pub const MA_HEADER_LEN: usize = 14;

/// Magnitudes of the four neighbours, cut off at 255.
#[derive(Clone, Copy)]
pub struct Attrs {
    pub left: u32,
    pub top: u32,
    pub top_left: u32,
    pub top_right: u32,
}

/// The contexts for one residual.
#[derive(Clone, Copy)]
pub struct CtxIds {
    pub escape: usize,
    pub sign: usize,
    pub val_q_base: usize,
}

/// A question of the context tree: does the attribute exceed the threshold?
#[derive(Clone, Copy)]
pub struct MaNode {
    pub attr: u8,
    pub threshold: u8,
}

/// A decision tree over the attributes with seven inner nodes, in heap order, and eight leaves.
pub struct MaTree {
    pub nodes: Vec<MaNode>,
}

/// How residuals are sorted into contexts.
pub enum CtxModel<'a> {
    /// By a tree that is stored with the data.
    Ma(&'a MaTree),
    /// By four classes of activity.
    Gradient,
    /// Not at all.
    Uniform,
}

pub open spec fn cap_abs_spec(v: i32) -> u32 {
    let a = if v < 0 {
        -(v as int)
    } else {
        v as int
    };
    if a < 255 {
        a as u32
    } else {
        255
    }
}

fn cap_abs(v: i32) -> (a: u32)
    ensures
        a == cap_abs_spec(v),
{
    if v < -255 || v > 255 {
        255
    } else if v < 0 {
        (-v) as u32
    } else {
        v as u32
    }
}

/// The attributes of position `vals.len()` behind the residuals `vals`, in rows of `stride`.
pub open spec fn attrs_spec(vals: Seq<i32>, stride: Option<usize>) -> Attrs {
    let pos = vals.len();
    match stride {
        None => Attrs { left: 0, top: 0, top_left: 0, top_right: 0 },
        Some(st) => if st == 0 {
            Attrs { left: 0, top: 0, top_left: 0, top_right: 0 }
        } else {
            Attrs {
                left: if pos >= 1 {
                    cap_abs_spec(vals[pos - 1])
                } else {
                    0
                },
                top: if pos >= st {
                    cap_abs_spec(vals[pos - st])
                } else {
                    0
                },
                top_left: if pos > st {
                    cap_abs_spec(vals[pos - st - 1])
                } else {
                    0
                },
                top_right: if st >= 2 && pos + 1 >= st {
                    cap_abs_spec(vals[pos + 1 - st])
                } else {
                    0
                },
            }
        },
    }
}

/// The attributes of position `pos` of `vals`.
pub fn attrs_at(vals: &[i32], pos: usize, stride: Option<usize>) -> (a: Attrs)
    requires
        pos <= vals@.len(),
    ensures
        a == attrs_spec(vals@.take(pos as int), stride),
{
    match stride {
        None => Attrs { left: 0, top: 0, top_left: 0, top_right: 0 },
        Some(st) => {
            if st == 0 {
                return Attrs { left: 0, top: 0, top_left: 0, top_right: 0 };
            }
            let left: u32 = if pos >= 1 {
                cap_abs(vals[pos - 1])
            } else {
                0
            };
            let top: u32 = if pos >= st {
                cap_abs(vals[pos - st])
            } else {
                0
            };
            let top_left: u32 = if pos > st {
                cap_abs(vals[pos - st - 1])
            } else {
                0
            };
            let top_right: u32 = if st >= 2 && pos >= st - 1 {
                cap_abs(vals[pos - (st - 1)])
            } else {
                0
            };
            Attrs { left, top, top_left, top_right }
        },
    }
}

pub open spec fn attr_value(a: Attrs, which: u8) -> u32 {
    if which == 0 {
        a.left
    } else if which == 1 {
        a.top
    } else if which == 2 {
        a.top_left
    } else {
        a.top_right
    }
}

/// The child of node `i` that the attributes lead to.
pub open spec fn ma_step(nodes: Seq<MaNode>, a: Attrs, i: int) -> int {
    if attr_value(a, nodes[i].attr) > nodes[i].threshold {
        2 * i + 2
    } else {
        2 * i + 1
    }
}

/// The leaf that the attributes lead to.
pub open spec fn ma_leaf(nodes: Seq<MaNode>, a: Attrs) -> nat {
    (ma_step(nodes, a, ma_step(nodes, a, ma_step(nodes, a, 0))) - 7) as nat
}

pub open spec fn grad_class_spec(a: Attrs) -> nat {
    let g = a.left + a.top;
    if g == 0 {
        0
    } else if g <= 4 {
        1
    } else if g <= 16 {
        2
    } else {
        3
    }
}

/// The class of activity, 0 to 3, from the neighbours left and above.
pub fn grad_class(a: Attrs) -> (c: usize)
    requires
        a.left <= 255,
        a.top <= 255,
    ensures
        c == grad_class_spec(a),
{
    let g: u32 = a.left + a.top;
    if g == 0 {
        0
    } else if g <= 4 {
        1
    } else if g <= 16 {
        2
    } else {
        3
    }
}

impl MaTree {
    pub open spec fn wf(&self) -> bool {
        &&& self.nodes@.len() == MA_NODES
        &&& forall|i: int| 0 <= i < MA_NODES ==> (#[trigger] self.nodes@[i]).attr < 4
    }

    /// The stored form.
    pub open spec fn bytes(&self) -> Seq<u8> {
        Seq::new(
            MA_HEADER_LEN as nat,
            |j: int|
                if j % 2 == 0 {
                    self.nodes@[j / 2].attr
                } else {
                    self.nodes@[j / 2].threshold
                },
        )
    }

    /// The stored form of the tree: attribute and threshold of each node.
    pub fn serialize(&self) -> (out: Vec<u8>)
        requires
            self.wf(),
        ensures
            out@ == self.bytes(),
    {
        let mut out: Vec<u8> = Vec::with_capacity(MA_HEADER_LEN);
        let mut i: usize = 0;
        while i < MA_NODES
            invariant
                self.wf(),
                i <= MA_NODES,
                out@.len() == 2 * i,
                forall|j: int| 0 <= j < 2 * i ==> out@[j] == #[trigger] self.bytes()[j],
            decreases MA_NODES - i,
        {
            out.push(self.nodes[i].attr);
            out.push(self.nodes[i].threshold);
            i = i + 1;
        }
        assert(out@ =~= self.bytes());
        out
    }

    /// The stored tree at the start of `data` names attributes that exist.
    pub open spec fn header_ok(data: Seq<u8>) -> bool {
        &&& data.len() >= MA_HEADER_LEN
        &&& forall|i: int| 0 <= i < MA_NODES ==> #[trigger] data[2 * i] < 4
    }

    /// Reads a stored tree; returns it with the number of bytes read.
    pub fn deserialize(data: &[u8]) -> (r: CrfResult<(MaTree, usize)>)
        ensures
            r is Ok <==> MaTree::header_ok(data@),
            data@.len() < MA_HEADER_LEN ==> r is Err && r->Err_0 == (CrfError::InsufficientData {
                expected: MA_HEADER_LEN,
                actual: data@.len() as usize,
            }),
            data@.len() >= MA_HEADER_LEN && r is Err ==> r->Err_0 is InvalidCodingParams,
            r is Ok ==> r->Ok_0.0.wf() && r->Ok_0.1 == MA_HEADER_LEN && r->Ok_0.0.bytes()
                == data@.take(MA_HEADER_LEN as int),
    {
        if data.len() < MA_HEADER_LEN {
            return Err(
                CrfError::InsufficientData { expected: MA_HEADER_LEN, actual: data.len() },
            );
        }
        let mut nodes: Vec<MaNode> = Vec::with_capacity(MA_NODES);
        let mut i: usize = 0;
        while i < MA_NODES
            invariant
                i <= MA_NODES,
                data@.len() >= MA_HEADER_LEN,
                nodes@.len() == i,
                forall|j: int| 0 <= j < i ==> #[trigger] data@[2 * j] < 4,
                forall|j: int|
                    0 <= j < i ==> (#[trigger] nodes@[j]).attr == data@[2 * j]
                        && nodes@[j].threshold == data@[2 * j + 1],
            decreases MA_NODES - i,
        {
            if data[2 * i] >= 4 {
                assert(!MaTree::header_ok(data@));
                return Err(CrfError::InvalidCodingParams("context tree".to_string()));
            }
            nodes.push(MaNode { attr: data[2 * i], threshold: data[2 * i + 1] });
            i = i + 1;
        }
        let t = MaTree { nodes };
        assert(t.bytes() =~= data@.take(MA_HEADER_LEN as int));
        Ok((t, MA_HEADER_LEN))
    }

    fn step(&self, a: Attrs, i: usize) -> (j: usize)
        requires
            self.wf(),
            i < MA_NODES,
        ensures
            j == ma_step(self.nodes@, a, i as int),
    {
        let node: MaNode = self.nodes[i];
        let v: u32 = if node.attr == 0 {
            a.left
        } else if node.attr == 1 {
            a.top
        } else if node.attr == 2 {
            a.top_left
        } else {
            a.top_right
        };
        if v > node.threshold as u32 {
            2 * i + 2
        } else {
            2 * i + 1
        }
    }
}

/// What a context model is, apart from where its tree is kept.
pub enum ModelView {
    Ma(Seq<MaNode>),
    Gradient,
    Uniform,
}

pub open spec fn model_leaf(m: ModelView, a: Attrs) -> nat {
    match m {
        ModelView::Ma(nodes) => ma_leaf(nodes, a),
        ModelView::Gradient => grad_class_spec(a),
        ModelView::Uniform => 0,
    }
}

pub open spec fn classify_spec(m: ModelView, a: Attrs, left_nonzero: bool) -> CtxIds {
    let leaf = model_leaf(m, a);
    CtxIds {
        escape: leaf as usize,
        sign: (CTX_SIGN + 2 * leaf + if left_nonzero {
            1int
        } else {
            0int
        }) as usize,
        val_q_base: (CTX_VAL_Q + 4 * leaf) as usize,
    }
}

pub proof fn lemma_model_leaf(m: ModelView, a: Attrs)
    requires
        m is Ma ==> m->Ma_0.len() == MA_NODES,
    ensures
        model_leaf(m, a) < 8,
{
}

impl<'a> CtxModel<'a> {
    pub open spec fn wf(&self) -> bool {
        match self {
            CtxModel::Ma(t) => t.wf(),
            _ => true,
        }
    }

    pub open spec fn view(&self) -> ModelView {
        match self {
            CtxModel::Ma(t) => ModelView::Ma(t.nodes@),
            CtxModel::Gradient => ModelView::Gradient,
            CtxModel::Uniform => ModelView::Uniform,
        }
    }

    /// The contexts of a residual with attributes `a`.
    pub fn classify(&self, a: Attrs, left_nonzero: bool) -> (ids: CtxIds)
        requires
            self.wf(),
            a.left <= 255,
            a.top <= 255,
        ensures
            ids == classify_spec(self@, a, left_nonzero),
            ids.escape < 8,
            ids.sign < CTX_RUN_LEAD,
            ids.val_q_base + 3 < CTX_SIGN,
    {
        let leaf: usize = match self {
            CtxModel::Ma(t) => {
                let i: usize = t.step(a, 0);
                let j: usize = t.step(a, i);
                let l: usize = t.step(a, j);
                l - 7
            },
            CtxModel::Gradient => grad_class(a),
            CtxModel::Uniform => 0,
        };
        CtxIds {
            escape: leaf,
            sign: CTX_SIGN + 2 * leaf + if left_nonzero {
                1
            } else {
                0
            },
            val_q_base: CTX_VAL_Q + 4 * leaf,
        }
    }
}

/// Sum of one attribute over the positions of `vals` up to `n`.
pub open spec fn attr_sum(vals: Seq<i32>, stride: Option<usize>, which: u8, n: nat) -> nat
    decreases n,
{
    if n == 0 {
        0
    } else {
        attr_sum(vals, stride, which, (n - 1) as nat) + attr_value(
            attrs_spec(vals.take(n - 1), stride),
            which,
        ) as nat
    }
}

/// Mean of one attribute, the threshold that [`build_ma_tree`] asks for.
pub open spec fn attr_mean(vals: Seq<i32>, stride: Option<usize>, which: u8) -> nat {
    if vals.len() == 0 {
        0
    } else {
        attr_sum(vals, stride, which, vals.len()) / vals.len()
    }
}

/// The tree fitted to `vals`: the first question is about the left neighbour, the next about the
/// one above, the last about the one above right, each split at the mean.
pub open spec fn fitted_nodes(vals: Seq<i32>, stride: Option<usize>) -> Seq<MaNode> {
    let a = MaNode { attr: 0, threshold: attr_mean(vals, stride, 0) as u8 };
    let b = MaNode { attr: 1, threshold: attr_mean(vals, stride, 1) as u8 };
    let c = MaNode { attr: 3, threshold: attr_mean(vals, stride, 3) as u8 };
    seq![a, b, b, c, c, c, c]
}

fn mean_of(sum: u64, n: usize) -> (m: u8)
    requires
        n > 0,
        sum <= n * 255,
    ensures
        m == sum as nat / n as nat,
{
    let q: u64 = sum / n as u64;
    assert(q <= 255) by (nonlinear_arith)
        requires
            sum <= n * 255,
            q == sum / (n as u64),
            n > 0,
    ;
    q as u8
}

/// Fits a context tree to the residuals `vals`.
pub fn build_ma_tree(vals: &[i32], stride: Option<usize>) -> (t: MaTree)
    requires
        vals@.len() <= u32::MAX,
    ensures
        t.wf(),
        t.nodes@ == fitted_nodes(vals@, stride),
{
    let mut s0: u64 = 0;
    let mut s1: u64 = 0;
    let mut s3: u64 = 0;
    let mut i: usize = 0;
    while i < vals.len()
        invariant
            i <= vals@.len() <= u32::MAX,
            s0 == attr_sum(vals@, stride, 0, i as nat),
            s1 == attr_sum(vals@, stride, 1, i as nat),
            s3 == attr_sum(vals@, stride, 3, i as nat),
            s0 <= i * 255,
            s1 <= i * 255,
            s3 <= i * 255,
        decreases vals@.len() - i,
    {
        let a: Attrs = attrs_at(vals, i, stride);
        s0 = s0 + a.left as u64;
        s1 = s1 + a.top as u64;
        s3 = s3 + a.top_right as u64;
        i = i + 1;
    }
    let n: usize = vals.len();
    let t0: u8 = if n == 0 {
        0
    } else {
        mean_of(s0, n)
    };
    let t1: u8 = if n == 0 {
        0
    } else {
        mean_of(s1, n)
    };
    let t3: u8 = if n == 0 {
        0
    } else {
        mean_of(s3, n)
    };
    let a = MaNode { attr: 0, threshold: t0 };
    let b = MaNode { attr: 1, threshold: t1 };
    let c = MaNode { attr: 3, threshold: t3 };
    let t = MaTree { nodes: vec![a, b, b, c, c, c, c] };
    assert(t.nodes@ =~= fitted_nodes(vals@, stride));
    t
}

/// A leaf says three things on the attributes of a residual: whether that at the root is above its
/// limit, and so on at the two nodes on the way.
pub proof fn law_ma_leaf(nodes: Seq<MaNode>, a: Attrs)
    ensures
        ({
            let l = ma_leaf(nodes, a) as int;
            let (i, j) = (1 + l / 4, 3 + l / 2);
            &&& 0 <= l < 8
            &&& l / 4 == 1 <==> attr_value(a, nodes[0].attr) > nodes[0].threshold
            &&& (l / 2) % 2 == 1 <==> attr_value(a, nodes[i].attr) > nodes[i].threshold
            &&& l % 2 == 1 <==> attr_value(a, nodes[j].attr) > nodes[j].threshold
        }),
{
}

/// Attributes are those of the residuals to the left, above, and beside that, up to 255; there are none
/// outside the image.
pub proof fn law_attrs(vals: Seq<i32>, st: usize)
    requires
        st >= 2,
    ensures
        ({
            let a = attrs_spec(vals, Some(st));
            let n = vals.len() as int;
            &&& n >= 1 && -255 <= vals[n - 1] <= 255 ==> a.left == vals[n - 1] || a.left == -vals[n
                - 1]
            &&& n >= st && -255 <= vals[n - st] <= 255 ==> a.top == vals[n - st] || a.top
                == -vals[n - st]
            &&& n > st && -255 <= vals[n - st - 1] <= 255 ==> a.top_left == vals[n - st - 1]
                || a.top_left == -vals[n - st - 1]
            &&& n >= st && -255 <= vals[n - st + 1] <= 255 ==> a.top_right == vals[n - st + 1]
                || a.top_right == -vals[n - st + 1]
            &&& n == 0 ==> a.left == 0
            &&& n < st ==> a.top == 0 && a.top_left == 0
            &&& n + 1 < st ==> a.top_right == 0
            &&& a.left <= 255 && a.top <= 255 && a.top_left <= 255 && a.top_right <= 255
        }),
{
}

/// Residuals whose neighbours are larger are in a class as high or higher, flat ones in the lowest.
pub proof fn law_grad_class(a: Attrs, b: Attrs)
    requires
        a.left <= b.left <= 255,
        a.top <= b.top <= 255,
    ensures
        grad_class_spec(a) <= grad_class_spec(b) <= 3,
        grad_class_spec(a) == 0 <==> a.left == 0 && a.top == 0,
        a.left + a.top <= 4 ==> grad_class_spec(a) <= 1,
        a.left + a.top > 16 ==> grad_class_spec(a) == 3,
{
}

/// Each leaf, and each sign of a residual to the left, has contexts of its own, of those there are.
pub proof fn law_contexts_apart(m: ModelView, a: Attrs, b: Attrs, s: bool, t: bool)
    requires
        m is Ma ==> m->Ma_0.len() == MA_NODES,
        model_leaf(m, a) != model_leaf(m, b) || s != t,
    ensures
        ({
            let (x, y) = (classify_spec(m, a, s), classify_spec(m, b, t));
            &&& x.sign != y.sign
            &&& model_leaf(m, a) != model_leaf(m, b) ==> x.escape != y.escape && (x.val_q_base + 4
                <= y.val_q_base || y.val_q_base + 4 <= x.val_q_base)
            &&& x.escape < CTX_VAL_Q <= x.val_q_base
            &&& x.val_q_base + 4 <= CTX_SIGN <= x.sign < CTX_RUN_LEAD
            &&& CTX_RUN_LEAD < N_CTX
        }),
{
    lemma_model_leaf(m, a);
    lemma_model_leaf(m, b);
}

/// The limit of an attribute is its mean: where it is at least `lo` and at most `hi` for all residuals,
/// so is its limit.
pub proof fn law_attr_mean(vals: Seq<i32>, stride: Option<usize>, which: u8, lo: int, hi: int)
    requires
        vals.len() >= 1,
        forall|i: int|
            0 <= i < vals.len() ==> lo <= attr_value(
                attrs_spec(#[trigger] vals.take(i), stride),
                which,
            ) <= hi,
    ensures
        lo <= attr_mean(vals, stride, which) <= hi,
{
    let n = vals.len() as int;
    lemma_attr_sum(vals, stride, which, vals.len(), lo, hi);
    let s = attr_sum(vals, stride, which, vals.len()) as int;
    let m = s / n;
    vstd::arithmetic::div_mod::lemma_fundamental_div_mod(s, n);
    vstd::arithmetic::div_mod::lemma_mod_bound(s, n);
    assert(lo <= m) by (nonlinear_arith)
        requires
            lo * n <= s,
            s == n * m + s % n,
            0 <= s % n < n,
    ;
    assert(m <= hi) by (nonlinear_arith)
        requires
            s <= hi * n,
            s == n * m + s % n,
            0 <= s % n,
            n >= 1,
    ;
}

proof fn lemma_attr_sum(
    vals: Seq<i32>,
    stride: Option<usize>,
    which: u8,
    n: nat,
    lo: int,
    hi: int,
)
    requires
        n <= vals.len(),
        forall|i: int|
            0 <= i < vals.len() ==> lo <= attr_value(
                attrs_spec(#[trigger] vals.take(i), stride),
                which,
            ) <= hi,
    ensures
        lo * n <= attr_sum(vals, stride, which, n) <= hi * n,
    decreases n,
{
    let k = n as int;
    if n > 0 {
        lemma_attr_sum(vals, stride, which, (n - 1) as nat, lo, hi);
        assert(lo <= attr_value(attrs_spec(vals.take(k - 1), stride), which) <= hi);
        assert(lo * k == lo * (k - 1) + lo && hi * k == hi * (k - 1) + hi) by (nonlinear_arith);
    } else {
        assert(lo * k == 0 && hi * k == 0) by (nonlinear_arith)
            requires
                k == 0,
        ;
    }
}

} // verus!
