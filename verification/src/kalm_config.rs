//! The configuration of the encoder-decoder reranker family.

use crate::graph::{LayerType, Side};
use crate::json::{Json, JsonView};
use crate::text::same_text;
use vstd::prelude::*;

verus! {

/// Rotary parameters of one layer type: the bits of two 64-bit reals.
#[derive(Clone, Copy, Debug, PartialEq, Eq, Structural)]
pub struct RopeParams {
    /// `rope_theta`.
    pub theta: u64,
    /// `factor`, one where the configuration gives none.
    pub factor: u64,
}

/// Rotary parameters of one stack.
#[derive(Clone, Copy, Debug, PartialEq, Eq, Structural)]
pub struct RopeTable {
    pub full: RopeParams,
    pub sliding: RopeParams,
}

/// The dimensions and parameters that one implementation of the whole family
/// reads from a checkpoint's configuration. Real numbers are kept as the bits of
/// their 64-bit form.
#[derive(Debug)]
pub struct KalmConfig {
    /// `hidden_size`.
    pub h: i32,
    /// `head_dim`.
    pub hd: i32,
    /// `num_attention_heads`.
    pub nh: i32,
    /// `num_key_value_heads`.
    pub nkv: i32,
    /// `rms_norm_eps`.
    pub eps: u64,
    /// `num_hidden_layers` of the encoder.
    pub enl: usize,
    /// `num_hidden_layers` of the decoder.
    pub dnl: usize,
    /// `layer_types` of the encoder.
    pub elt: Vec<String>,
    /// `layer_types` of the decoder.
    pub dlt: Vec<String>,
    /// `query_pre_attn_scalar`; attention scores are scaled by its power of minus one half.
    pub qpas: u64,
    /// Rotary parameters of the encoder.
    pub enc_rope: RopeTable,
    /// Rotary parameters of the decoder.
    pub dec_rope: RopeTable,
}

/// The type that the name of a layer type stands for: every name but that of
/// full attention means sliding attention.
pub open spec fn layer_type_of(name: Seq<char>) -> LayerType {
    if name == "full_attention"@ {
        LayerType::Full
    } else {
        LayerType::Sliding
    }
}

impl KalmConfig {
    /// Every layer has a type, and the heads' joint width is a machine integer.
    pub open spec fn wf(&self) -> bool {
        &&& self.enl <= self.elt@.len()
        &&& self.dnl <= self.dlt@.len()
        &&& i32::MIN <= self.nh * self.hd <= i32::MAX
    }

    /// The number of layers of one stack.
    pub open spec fn layers(&self, side: Side) -> nat {
        match side {
            Side::Encoder => self.enl as nat,
            Side::Decoder => self.dnl as nat,
        }
    }

    /// The type of layer `i` of one stack.
    pub open spec fn layer_type(&self, side: Side, i: int) -> LayerType {
        match side {
            Side::Encoder => layer_type_of(self.elt@[i]@),
            Side::Decoder => layer_type_of(self.dlt@[i]@),
        }
    }

    /// Whether every layer has a type and the heads' joint width is a machine integer.
    pub fn is_wf(&self) -> (r: bool)
        ensures
            r == self.wf(),
    {
        self.enl <= self.elt.len() && self.dnl <= self.dlt.len() && self.nh.checked_mul(
            self.hd,
        ).is_some()
    }

    /// The type of layer `i` of one stack.
    pub fn type_of_layer(&self, side: Side, i: usize) -> (r: LayerType)
        requires
            self.wf(),
            i < self.layers(side),
        ensures
            r == self.layer_type(side, i as int),
    {
        let name: &String = match side {
            Side::Encoder => &self.elt[i],
            Side::Decoder => &self.dlt[i],
        };
        if same_text(name.as_str(), "full_attention") {
            LayerType::Full
        } else {
            LayerType::Sliding
        }
    }
}

/// The bits of the 64-bit real one.
pub const ONE_BITS: u64 = 0x3FF0_0000_0000_0000;

/// The error of a member that is not a number, if it is none.
pub open spec fn real_error(v: JsonView, key: Seq<char>) -> Option<Seq<char>> {
    if v.get(key) is Some && v.get(key)->0.as_real() is Some {
        None
    } else {
        Some("config missing numeric "@ + key)
    }
}

/// The error of a member that is not an integer, if it is none.
pub open spec fn int_error(v: JsonView, key: Seq<char>) -> Option<Seq<char>> {
    if v.get(key) is Some && v.get(key)->0.as_i64() is Some {
        None
    } else {
        Some("config missing int "@ + key)
    }
}

/// The error `message`, unless `found` holds.
pub open spec fn missing(found: bool, message: Seq<char>) -> Option<Seq<char>> {
    if found {
        None
    } else {
        Some(message)
    }
}

/// The bits of a member that is a number.
pub open spec fn real_at(v: JsonView, key: Seq<char>) -> u64 {
    v.get(key)->0.as_real()->0
}

/// A member that is an integer.
pub open spec fn int_at(v: JsonView, key: Seq<char>) -> i64 {
    v.get(key)->0.as_i64()->0
}

/// The configuration of the encoder, under `encoder.text_config`.
pub open spec fn encoder_at(v: JsonView) -> Option<JsonView> {
    match v.get("encoder"@) {
        Some(encoder) => encoder.get("text_config"@),
        None => None,
    }
}

/// The list under `layer_types`.
pub open spec fn layer_types_at(v: JsonView) -> Option<Seq<JsonView>> {
    match v.get("layer_types"@) {
        Some(types) => types.as_array(),
        None => None,
    }
}

/// The names in a list of layer types; what is not a text means full attention.
pub open spec fn type_names(items: Seq<JsonView>) -> Seq<Seq<char>> {
    Seq::new(
        items.len(),
        |i: int|
            match items[i].as_str() {
                Some(name) => name,
                None => "full_attention"@,
            },
    )
}

/// The character views of a list of names.
pub open spec fn names_of(names: Seq<String>) -> Seq<Seq<char>> {
    Seq::new(names.len(), |i: int| names[i]@)
}

/// The errors of one stack's rotary parameters, in the order in which they are
/// looked for.
pub open spec fn rope_errors(side: JsonView) -> Seq<Option<Seq<char>>> {
    let rp = side.get("rope_parameters"@);
    let full = rp->0.get("full_attention"@);
    let sliding = rp->0.get("sliding_attention"@);
    seq![
        missing(rp is Some, "missing rope_parameters"@),
        missing(full is Some, "missing rope_parameters.full_attention"@),
        real_error(full->0, "rope_theta"@),
        missing(sliding is Some, "missing rope_parameters.sliding_attention"@),
        real_error(sliding->0, "rope_theta"@),
    ]
}

/// The rotary parameters under one layer type.
pub open spec fn rope_params_of(v: JsonView) -> RopeParams {
    RopeParams {
        theta: real_at(v, "rope_theta"@),
        factor: if v.get("factor"@) is Some && v.get("factor"@)->0.as_real() is Some {
            real_at(v, "factor"@)
        } else {
            ONE_BITS
        },
    }
}

/// One stack's rotary parameters.
pub open spec fn rope_table_of(side: JsonView) -> RopeTable {
    let rp = side.get("rope_parameters"@)->0;
    RopeTable {
        full: rope_params_of(rp.get("full_attention"@)->0),
        sliding: rope_params_of(rp.get("sliding_attention"@)->0),
    }
}

/// The errors of a configuration before its rotary parameters, in the order in
/// which they are looked for.
pub open spec fn head_errors(v: JsonView) -> Seq<Option<Seq<char>>> {
    let ec = encoder_at(v)->0;
    let dc = v.get("decoder"@)->0;
    seq![
        missing(encoder_at(v) is Some, "config missing encoder.text_config"@),
        missing(v.get("decoder"@) is Some, "config missing decoder"@),
        int_error(ec, "hidden_size"@),
        int_error(ec, "head_dim"@),
        int_error(ec, "num_attention_heads"@),
        int_error(ec, "num_key_value_heads"@),
        real_error(ec, "rms_norm_eps"@),
        int_error(ec, "num_hidden_layers"@),
        int_error(dc, "num_hidden_layers"@),
        real_error(ec, "query_pre_attn_scalar"@),
        missing(layer_types_at(ec) is Some, "missing encoder layer_types"@),
        missing(layer_types_at(dc) is Some, "missing decoder layer_types"@),
    ]
}

/// All errors of a configuration, in the order in which they are looked for.
pub open spec fn config_errors(v: JsonView) -> Seq<Option<Seq<char>>> {
    head_errors(v) + rope_errors(encoder_at(v)->0) + rope_errors(v.get("decoder"@)->0)
}

/// Whether none of `errors` is one.
pub open spec fn no_error(errors: Seq<Option<Seq<char>>>) -> bool {
    forall|i: int| 0 <= i < errors.len() ==> #[trigger] errors[i] is None
}

/// Whether `message` is the first of `errors`.
pub open spec fn is_first_error(errors: Seq<Option<Seq<char>>>, message: Seq<char>) -> bool {
    exists|k: int|
        0 <= k < errors.len() && #[trigger] errors[k] == Some(message) && no_error(errors.take(k))
}

proof fn lemma_first_error_behind(
    a: Seq<Option<Seq<char>>>,
    b: Seq<Option<Seq<char>>>,
    message: Seq<char>,
)
    requires
        no_error(a),
        is_first_error(b, message),
    ensures
        is_first_error(a + b, message),
{
    let k = choose|k: int|
        0 <= k < b.len() && #[trigger] b[k] == Some(message) && no_error(b.take(k));
    let all = a + b;
    assert(all[a.len() + k] == Some(message));
    assert forall|i: int| 0 <= i < a.len() + k implies #[trigger] all.take(a.len() + k)[i] is None by {
        if i < a.len() {
            assert(a[i] is None);
        } else {
            assert(b.take(k)[i - a.len()] is None);
        }
    }
}

proof fn lemma_first_error_before(
    a: Seq<Option<Seq<char>>>,
    b: Seq<Option<Seq<char>>>,
    message: Seq<char>,
)
    requires
        is_first_error(a, message),
    ensures
        is_first_error(a + b, message),
{
    let k = choose|k: int|
        0 <= k < a.len() && #[trigger] a[k] == Some(message) && no_error(a.take(k));
    assert((a + b)[k] == Some(message));
    assert((a + b).take(k) =~= a.take(k));
}

/// Reads a member that must be a number.
pub fn cfg_f64(v: &Json, key: &str) -> (r: Result<u64, String>)
    ensures
        match r {
            Ok(bits) => real_error(v@, key@) is None && bits == real_at(v@, key@),
            Err(e) => real_error(v@, key@) == Some(e@),
        },
{
    if let Some(member) = v.get(key) {
        if let Some(bits) = member.as_real() {
            return Ok(bits);
        }
    }
    let mut message = "config missing numeric ".to_owned();
    message.append(key);
    Err(message)
}

/// Reads a member that must be an integer.
pub fn cfg_i64(v: &Json, key: &str) -> (r: Result<i64, String>)
    ensures
        match r {
            Ok(n) => int_error(v@, key@) is None && n == int_at(v@, key@),
            Err(e) => int_error(v@, key@) == Some(e@),
        },
{
    if let Some(member) = v.get(key) {
        if let Some(n) = member.as_i64() {
            return Ok(n);
        }
    }
    let mut message = "config missing int ".to_owned();
    message.append(key);
    Err(message)
}

/// Reads the layer types of one stack, if it lists any.
fn layer_types(v: &Json) -> (r: Option<Vec<String>>)
    ensures
        match r {
            Some(names) => layer_types_at(v@) is Some && names_of(names@) == type_names(
                layer_types_at(v@)->0,
            ),
            None => layer_types_at(v@) is None,
        },
{
    let types = v.get("layer_types")?;
    let items = types.as_array()?;
    let ghost all = layer_types_at(v@)->0;
    let mut names: Vec<String> = Vec::new();
    let mut i: usize = 0;
    while i < items.len()
        invariant
            i <= items@.len(),
            all == Seq::new(items@.len(), |i: int| items@[i]@),
            names@.len() == i,
            forall|j: int| 0 <= j < i ==> (#[trigger] names@[j])@ == type_names(all)[j],
        decreases items@.len() - i,
    {
        let name = match items[i].as_str() {
            Some(name) => name.clone(),
            None => "full_attention".to_owned(),
        };
        names.push(name);
        i += 1;
    }
    assert(names_of(names@) =~= type_names(all));
    Some(names)
}

fn rope_params(v: &Json) -> (r: Result<RopeParams, String>)
    ensures
        match r {
            Ok(p) => real_error(v@, "rope_theta"@) is None && p == rope_params_of(v@),
            Err(e) => real_error(v@, "rope_theta"@) == Some(e@),
        },
{
    let theta = match cfg_f64(v, "rope_theta") {
        Ok(theta) => theta,
        Err(e) => return Err(e),
    };
    let factor = match v.get("factor") {
        Some(member) => match member.as_real() {
            Some(bits) => bits,
            None => ONE_BITS,
        },
        None => ONE_BITS,
    };
    Ok(RopeParams { theta, factor })
}

/// Reads one stack's rotary parameters for both layer types.
pub fn rope_table(side: &Json) -> (r: Result<RopeTable, String>)
    ensures
        match r {
            Ok(table) => no_error(rope_errors(side@)) && table == rope_table_of(side@),
            Err(e) => is_first_error(rope_errors(side@), e@),
        },
{
    let ghost errors = rope_errors(side@);
    let rp = match side.get("rope_parameters") {
        Some(rp) => rp,
        None => {
            assert(errors[0] == Some("missing rope_parameters"@));
            return Err("missing rope_parameters".to_owned());
        },
    };
    let full = match rp.get("full_attention") {
        Some(p) => p,
        None => {
            assert(errors[1] == Some("missing rope_parameters.full_attention"@));
            return Err("missing rope_parameters.full_attention".to_owned());
        },
    };
    let full = match rope_params(full) {
        Ok(p) => p,
        Err(e) => {
            assert(errors[2] == Some(e@));
            return Err(e);
        },
    };
    let sliding = match rp.get("sliding_attention") {
        Some(p) => p,
        None => {
            assert(errors[3] == Some("missing rope_parameters.sliding_attention"@));
            return Err("missing rope_parameters.sliding_attention".to_owned());
        },
    };
    let sliding = match rope_params(sliding) {
        Ok(p) => p,
        Err(e) => {
            assert(errors[4] == Some(e@));
            return Err(e);
        },
    };
    Ok(RopeTable { full, sliding })
}

/// Whether `cfg` holds what the configuration `v` gives. Integers are cut to the
/// machine integers that hold them.
pub open spec fn holds_config(cfg: &KalmConfig, v: JsonView) -> bool {
    let ec = encoder_at(v)->0;
    let dc = v.get("decoder"@)->0;
    &&& cfg.h == int_at(ec, "hidden_size"@) as i32
    &&& cfg.hd == int_at(ec, "head_dim"@) as i32
    &&& cfg.nh == int_at(ec, "num_attention_heads"@) as i32
    &&& cfg.nkv == int_at(ec, "num_key_value_heads"@) as i32
    &&& cfg.eps == real_at(ec, "rms_norm_eps"@)
    &&& cfg.enl == int_at(ec, "num_hidden_layers"@) as usize
    &&& cfg.dnl == int_at(dc, "num_hidden_layers"@) as usize
    &&& cfg.qpas == real_at(ec, "query_pre_attn_scalar"@)
    &&& names_of(cfg.elt@) == type_names(layer_types_at(ec)->0)
    &&& names_of(cfg.dlt@) == type_names(layer_types_at(dc)->0)
    &&& cfg.enc_rope == rope_table_of(ec)
    &&& cfg.dec_rope == rope_table_of(dc)
}

impl KalmConfig {
    /// Reads the configuration of a checkpoint: `encoder.text_config` and `decoder`.
    pub fn from_json(cfg: &Json) -> (r: Result<Self, String>)
        ensures
            match r {
                Ok(c) => no_error(config_errors(cfg@)) && holds_config(&c, cfg@),
                Err(e) => is_first_error(config_errors(cfg@), e@),
            },
    {
        let ghost errors = config_errors(cfg@);
        let ec = match cfg.get("encoder") {
            Some(encoder) => encoder.get("text_config"),
            None => None,
        };
        let ec = match ec {
            Some(ec) => ec,
            None => {
                assert(errors[0] == Some("config missing encoder.text_config"@));
                return Err("config missing encoder.text_config".to_owned());
            },
        };
        let dc = match cfg.get("decoder") {
            Some(dc) => dc,
            None => {
                assert(errors[1] == Some("config missing decoder"@));
                return Err("config missing decoder".to_owned());
            },
        };
        let h = match cfg_i64(ec, "hidden_size") {
            Ok(n) => n,
            Err(e) => {
                assert(errors[2] == Some(e@));
                return Err(e);
            },
        };
        let hd = match cfg_i64(ec, "head_dim") {
            Ok(n) => n,
            Err(e) => {
                assert(errors[3] == Some(e@));
                return Err(e);
            },
        };
        let nh = match cfg_i64(ec, "num_attention_heads") {
            Ok(n) => n,
            Err(e) => {
                assert(errors[4] == Some(e@));
                return Err(e);
            },
        };
        let nkv = match cfg_i64(ec, "num_key_value_heads") {
            Ok(n) => n,
            Err(e) => {
                assert(errors[5] == Some(e@));
                return Err(e);
            },
        };
        let eps = match cfg_f64(ec, "rms_norm_eps") {
            Ok(n) => n,
            Err(e) => {
                assert(errors[6] == Some(e@));
                return Err(e);
            },
        };
        let enl = match cfg_i64(ec, "num_hidden_layers") {
            Ok(n) => n,
            Err(e) => {
                assert(errors[7] == Some(e@));
                return Err(e);
            },
        };
        let dnl = match cfg_i64(dc, "num_hidden_layers") {
            Ok(n) => n,
            Err(e) => {
                assert(errors[8] == Some(e@));
                return Err(e);
            },
        };
        let qpas = match cfg_f64(ec, "query_pre_attn_scalar") {
            Ok(n) => n,
            Err(e) => {
                assert(errors[9] == Some(e@));
                return Err(e);
            },
        };
        let elt = match layer_types(ec) {
            Some(names) => names,
            None => {
                assert(errors[10] == Some("missing encoder layer_types"@));
                return Err("missing encoder layer_types".to_owned());
            },
        };
        let dlt = match layer_types(dc) {
            Some(names) => names,
            None => {
                assert(errors[11] == Some("missing decoder layer_types"@));
                return Err("missing decoder layer_types".to_owned());
            },
        };
        assert(no_error(head_errors(cfg@)));
        let enc_rope = match rope_table(ec) {
            Ok(table) => table,
            Err(e) => {
                proof {
                    lemma_first_error_behind(head_errors(cfg@), rope_errors(ec@), e@);
                    lemma_first_error_before(
                        head_errors(cfg@) + rope_errors(ec@),
                        rope_errors(dc@),
                        e@,
                    );
                }
                return Err(e);
            },
        };
        assert(no_error(head_errors(cfg@) + rope_errors(ec@)));
        let dec_rope = match rope_table(dc) {
            Ok(table) => table,
            Err(e) => {
                proof {
                    lemma_first_error_behind(
                        head_errors(cfg@) + rope_errors(ec@),
                        rope_errors(dc@),
                        e@,
                    );
                }
                return Err(e);
            },
        };
        Ok(
            KalmConfig {
                h: h as i32,
                hd: hd as i32,
                nh: nh as i32,
                nkv: nkv as i32,
                eps,
                enl: enl as usize,
                dnl: dnl as usize,
                elt,
                dlt,
                qpas,
                enc_rope,
                dec_rope,
            },
        )
    }
}

} // verus!
