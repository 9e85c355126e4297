use vstd::prelude::*;

verus! {

/// The groups of functions the library exports, each registered as a whole.
#[derive(Clone, Copy, Debug, PartialEq, Eq, Structural)]
pub enum Submodule {
    Arithmetic,
    Bitwise,
    Buffer,
    Creation,
    Formatting,
    Io,
    Logic,
    Manipulation,
    Mathematics,
    Poly,
    Searching,
    Setops,
    Sorting,
    Statistics,
}

/// Exported names of the arithmetic group.
pub open spec fn arithmetic_names() -> Seq<&'static str> {
    seq!["add", "subtract", "multiply", "divide", "power", "mod_"]
}

/// Exported names of the bitwise group.
pub open spec fn bitwise_names() -> Seq<&'static str> {
    seq!["invert", "bitwise_and", "bitwise_or", "bitwise_xor", "bitwise_not", "left_shift", "right_shift", "binary_repr", "packbits", "unpackbits", "bitwise_count"]
}

/// Exported names of the buffer group.
pub open spec fn buffer_names() -> Seq<&'static str> {
    seq!["bytes_to_floats", "from_buffer_typed", "array_interface", "isum", "imax", "tuple_getitem"]
}

/// Exported names of the creation group.
pub open spec fn creation_names() -> Seq<&'static str> {
    seq!["array", "build_array", "zeros", "ones", "eye", "arange", "linspace", "full", "empty", "zeros_like", "ones_like", "empty_like", "full_like", "logspace", "geomspace", "meshgrid"]
}

/// Exported names of the formatting group.
pub open spec fn formatting_names() -> Seq<&'static str> {
    seq!["_format_complex_repr", "_format_complex_str", "_format_int_repr", "_format_int_str", "_format_float_repr", "_format_float_str", "_format_int_val_repr", "_format_int_val_str"]
}

/// Exported names of the io group.
pub open spec fn io_names() -> Seq<&'static str> {
    seq!["save_npy", "load_npy", "save_text", "load_text", "savez_npz", "load_npz"]
}

/// Exported names of the logic group.
pub open spec fn logic_names() -> Seq<&'static str> {
    seq!["greater", "less", "equal", "not_equal", "greater_equal", "less_equal", "logical_and", "logical_or", "logical_xor", "isclose", "allclose", "array_equal", "all", "any", "isnan", "isinf", "isfinite", "maximum", "minimum"]
}

/// Exported names of the manipulation group.
pub open spec fn manipulation_names() -> Seq<&'static str> {
    seq!["concatenate", "stack", "transpose", "transpose_axes", "moveaxis", "swapaxes", "vstack", "hstack", "column_stack", "tile", "squeeze", "flatten", "flatten_full", "reshape", "expand_dims", "broadcast_to", "roll", "rot90", "flip", "resize_rs", "delete_rs", "insert_rs", "split_rs", "diag", "tril_indices", "triu_indices", "atleast_1d", "atleast_2d", "atleast_3d", "ravel_multi_index", "unravel_index", "place", "fill_diagonal", "putmask", "take_along_axis", "put_along_axis", "diagonal_ext", "choose", "compress", "copyto"]
}

/// Exported names of the mathematics group.
pub open spec fn mathematics_names() -> Seq<&'static str> {
    seq!["sin", "cos", "tan", "sqrt", "exp", "log", "log10", "log2", "log1p", "abs", "cosh", "sinh", "tanh", "acosh", "asinh", "atanh", "asin", "acos", "atan", "expm1", "trunc", "fix", "square", "cbrt", "sign", "reciprocal", "floor", "ceil", "round", "arctan2", "deg2rad", "rad2deg", "hypot", "gcd", "lcm", "nextafter", "copysign", "ldexp", "signbit", "rint", "spacing", "sinc", "heaviside", "clip", "cross", "frexp", "i0", "interp", "convolve", "correlate", "unwrap", "base_repr", "fmax", "fmin", "polymul"]
}

/// Exported names of the poly group.
pub open spec fn poly_names() -> Seq<&'static str> {
    seq!["polyval_rs", "polyder_rs", "polyint_rs", "polyroots_rs", "polyfit_rs", "polyadd", "polysub", "polymul", "polydiv", "poly_from_roots"]
}

/// Exported names of the searching group.
pub open spec fn searching_names() -> Seq<&'static str> {
    seq!["where", "nonzero", "nonzero_arrs", "argwhere", "flatnonzero", "count_nonzero", "extract", "select_rs", "ix_rs", "_arange_arrays"]
}

/// Exported names of the setops group.
pub open spec fn setops_names() -> Seq<&'static str> {
    seq!["unique", "unique_full", "unique_axis", "unique_all_rs", "intersect1d", "union1d", "setdiff1d", "setxor1d", "isin"]
}

/// Exported names of the sorting group.
pub open spec fn sorting_names() -> Seq<&'static str> {
    seq!["sort", "argsort", "partition", "argpartition", "lexsort", "sort_complex", "searchsorted", "searchsorted_axis"]
}

/// Exported names of the statistics group.
pub open spec fn statistics_names() -> Seq<&'static str> {
    seq!["sum", "prod", "mean", "std", "var", "min", "max", "argmin", "argmax", "median", "average", "percentile", "ptp", "histogram", "histogram2d_rs", "corrcoef_rs", "cov", "bincount", "gradient", "diff", "trapz", "digitize", "argmax_axis", "argmin_axis", "nan_to_num", "ediff1d", "trim_zeros", "bincount_weighted", "nansum", "nanprod", "nanmax", "nanmin", "nanmean", "nanvar", "nanstd", "nanargmax_axis", "nanargmin_axis", "nancumsum", "nancumprod"]
}

/// Names under which the functions of a group are exported, in registration order.
pub open spec fn exported_names(m: Submodule) -> Seq<&'static str> {
    match m {
        Submodule::Arithmetic => arithmetic_names(),
        Submodule::Bitwise => bitwise_names(),
        Submodule::Buffer => buffer_names(),
        Submodule::Creation => creation_names(),
        Submodule::Formatting => formatting_names(),
        Submodule::Io => io_names(),
        Submodule::Logic => logic_names(),
        Submodule::Manipulation => manipulation_names(),
        Submodule::Mathematics => mathematics_names(),
        Submodule::Poly => poly_names(),
        Submodule::Searching => searching_names(),
        Submodule::Setops => setops_names(),
        Submodule::Sorting => sorting_names(),
        Submodule::Statistics => statistics_names(),
    }
}

fn push_arithmetic(table: &mut Vec<&'static str>)
    ensures
        final(table)@ == old(table)@ + arithmetic_names(),
{
    let ghost start = table@;
    table.push("add");
    table.push("subtract");
    table.push("multiply");
    table.push("divide");
    table.push("power");
    table.push("mod_");
    assert(table@ =~= start + arithmetic_names());
}

fn push_bitwise(table: &mut Vec<&'static str>)
    ensures
        final(table)@ == old(table)@ + bitwise_names(),
{
    let ghost start = table@;
    table.push("invert");
    table.push("bitwise_and");
    table.push("bitwise_or");
    table.push("bitwise_xor");
    table.push("bitwise_not");
    table.push("left_shift");
    table.push("right_shift");
    table.push("binary_repr");
    table.push("packbits");
    table.push("unpackbits");
    table.push("bitwise_count");
    assert(table@ =~= start + bitwise_names());
}

fn push_buffer(table: &mut Vec<&'static str>)
    ensures
        final(table)@ == old(table)@ + buffer_names(),
{
    let ghost start = table@;
    table.push("bytes_to_floats");
    table.push("from_buffer_typed");
    table.push("array_interface");
    table.push("isum");
    table.push("imax");
    table.push("tuple_getitem");
    assert(table@ =~= start + buffer_names());
}

fn push_creation(table: &mut Vec<&'static str>)
    ensures
        final(table)@ == old(table)@ + creation_names(),
{
    let ghost start = table@;
    table.push("array");
    table.push("build_array");
    table.push("zeros");
    table.push("ones");
    table.push("eye");
    table.push("arange");
    table.push("linspace");
    table.push("full");
    table.push("empty");
    table.push("zeros_like");
    table.push("ones_like");
    table.push("empty_like");
    table.push("full_like");
    table.push("logspace");
    table.push("geomspace");
    table.push("meshgrid");
    assert(table@ =~= start + creation_names());
}

fn push_formatting(table: &mut Vec<&'static str>)
    ensures
        final(table)@ == old(table)@ + formatting_names(),
{
    let ghost start = table@;
    table.push("_format_complex_repr");
    table.push("_format_complex_str");
    table.push("_format_int_repr");
    table.push("_format_int_str");
    table.push("_format_float_repr");
    table.push("_format_float_str");
    table.push("_format_int_val_repr");
    table.push("_format_int_val_str");
    assert(table@ =~= start + formatting_names());
}

fn push_io(table: &mut Vec<&'static str>)
    ensures
        final(table)@ == old(table)@ + io_names(),
{
    let ghost start = table@;
    table.push("save_npy");
    table.push("load_npy");
    table.push("save_text");
    table.push("load_text");
    table.push("savez_npz");
    table.push("load_npz");
    assert(table@ =~= start + io_names());
}

fn push_logic(table: &mut Vec<&'static str>)
    ensures
        final(table)@ == old(table)@ + logic_names(),
{
    let ghost start = table@;
    table.push("greater");
    table.push("less");
    table.push("equal");
    table.push("not_equal");
    table.push("greater_equal");
    table.push("less_equal");
    table.push("logical_and");
    table.push("logical_or");
    table.push("logical_xor");
    table.push("isclose");
    table.push("allclose");
    table.push("array_equal");
    table.push("all");
    table.push("any");
    table.push("isnan");
    table.push("isinf");
    table.push("isfinite");
    table.push("maximum");
    table.push("minimum");
    assert(table@ =~= start + logic_names());
}

fn push_manipulation(table: &mut Vec<&'static str>)
    ensures
        final(table)@ == old(table)@ + manipulation_names(),
{
    let ghost start = table@;
    table.push("concatenate");
    table.push("stack");
    table.push("transpose");
    table.push("transpose_axes");
    table.push("moveaxis");
    table.push("swapaxes");
    table.push("vstack");
    table.push("hstack");
    table.push("column_stack");
    table.push("tile");
    table.push("squeeze");
    table.push("flatten");
    table.push("flatten_full");
    table.push("reshape");
    table.push("expand_dims");
    table.push("broadcast_to");
    table.push("roll");
    table.push("rot90");
    table.push("flip");
    table.push("resize_rs");
    table.push("delete_rs");
    table.push("insert_rs");
    table.push("split_rs");
    table.push("diag");
    table.push("tril_indices");
    table.push("triu_indices");
    table.push("atleast_1d");
    table.push("atleast_2d");
    table.push("atleast_3d");
    table.push("ravel_multi_index");
    table.push("unravel_index");
    table.push("place");
    table.push("fill_diagonal");
    table.push("putmask");
    table.push("take_along_axis");
    table.push("put_along_axis");
    table.push("diagonal_ext");
    table.push("choose");
    table.push("compress");
    table.push("copyto");
    assert(table@ =~= start + manipulation_names());
}

fn push_mathematics(table: &mut Vec<&'static str>)
    ensures
        final(table)@ == old(table)@ + mathematics_names(),
{
    let ghost start = table@;
    table.push("sin");
    table.push("cos");
    table.push("tan");
    table.push("sqrt");
    table.push("exp");
    table.push("log");
    table.push("log10");
    table.push("log2");
    table.push("log1p");
    table.push("abs");
    table.push("cosh");
    table.push("sinh");
    table.push("tanh");
    table.push("acosh");
    table.push("asinh");
    table.push("atanh");
    table.push("asin");
    table.push("acos");
    table.push("atan");
    table.push("expm1");
    table.push("trunc");
    table.push("fix");
    table.push("square");
    table.push("cbrt");
    table.push("sign");
    table.push("reciprocal");
    table.push("floor");
    table.push("ceil");
    table.push("round");
    table.push("arctan2");
    table.push("deg2rad");
    table.push("rad2deg");
    table.push("hypot");
    table.push("gcd");
    table.push("lcm");
    table.push("nextafter");
    table.push("copysign");
    table.push("ldexp");
    table.push("signbit");
    table.push("rint");
    table.push("spacing");
    table.push("sinc");
    table.push("heaviside");
    table.push("clip");
    table.push("cross");
    table.push("frexp");
    table.push("i0");
    table.push("interp");
    table.push("convolve");
    table.push("correlate");
    table.push("unwrap");
    table.push("base_repr");
    table.push("fmax");
    table.push("fmin");
    table.push("polymul");
    assert(table@ =~= start + mathematics_names());
}

fn push_poly(table: &mut Vec<&'static str>)
    ensures
        final(table)@ == old(table)@ + poly_names(),
{
    let ghost start = table@;
    table.push("polyval_rs");
    table.push("polyder_rs");
    table.push("polyint_rs");
    table.push("polyroots_rs");
    table.push("polyfit_rs");
    table.push("polyadd");
    table.push("polysub");
    table.push("polymul");
    table.push("polydiv");
    table.push("poly_from_roots");
    assert(table@ =~= start + poly_names());
}

fn push_searching(table: &mut Vec<&'static str>)
    ensures
        final(table)@ == old(table)@ + searching_names(),
{
    let ghost start = table@;
    table.push("where");
    table.push("nonzero");
    table.push("nonzero_arrs");
    table.push("argwhere");
    table.push("flatnonzero");
    table.push("count_nonzero");
    table.push("extract");
    table.push("select_rs");
    table.push("ix_rs");
    table.push("_arange_arrays");
    assert(table@ =~= start + searching_names());
}

fn push_setops(table: &mut Vec<&'static str>)
    ensures
        final(table)@ == old(table)@ + setops_names(),
{
    let ghost start = table@;
    table.push("unique");
    table.push("unique_full");
    table.push("unique_axis");
    table.push("unique_all_rs");
    table.push("intersect1d");
    table.push("union1d");
    table.push("setdiff1d");
    table.push("setxor1d");
    table.push("isin");
    assert(table@ =~= start + setops_names());
}

fn push_sorting(table: &mut Vec<&'static str>)
    ensures
        final(table)@ == old(table)@ + sorting_names(),
{
    let ghost start = table@;
    table.push("sort");
    table.push("argsort");
    table.push("partition");
    table.push("argpartition");
    table.push("lexsort");
    table.push("sort_complex");
    table.push("searchsorted");
    table.push("searchsorted_axis");
    assert(table@ =~= start + sorting_names());
}

fn push_statistics(table: &mut Vec<&'static str>)
    ensures
        final(table)@ == old(table)@ + statistics_names(),
{
    let ghost start = table@;
    table.push("sum");
    table.push("prod");
    table.push("mean");
    table.push("std");
    table.push("var");
    table.push("min");
    table.push("max");
    table.push("argmin");
    table.push("argmax");
    table.push("median");
    table.push("average");
    table.push("percentile");
    table.push("ptp");
    table.push("histogram");
    table.push("histogram2d_rs");
    table.push("corrcoef_rs");
    table.push("cov");
    table.push("bincount");
    table.push("gradient");
    table.push("diff");
    table.push("trapz");
    table.push("digitize");
    table.push("argmax_axis");
    table.push("argmin_axis");
    table.push("nan_to_num");
    table.push("ediff1d");
    table.push("trim_zeros");
    table.push("bincount_weighted");
    table.push("nansum");
    table.push("nanprod");
    table.push("nanmax");
    table.push("nanmin");
    table.push("nanmean");
    table.push("nanvar");
    table.push("nanstd");
    table.push("nanargmax_axis");
    table.push("nanargmin_axis");
    table.push("nancumsum");
    table.push("nancumprod");
    assert(table@ =~= start + statistics_names());
}

/// Appends, in order, the names under which the functions of a group are exported.
pub fn register(m: Submodule, table: &mut Vec<&'static str>)
    ensures
        final(table)@ == old(table)@ + exported_names(m),
{
    match m {
        Submodule::Arithmetic => push_arithmetic(table),
        Submodule::Bitwise => push_bitwise(table),
        Submodule::Buffer => push_buffer(table),
        Submodule::Creation => push_creation(table),
        Submodule::Formatting => push_formatting(table),
        Submodule::Io => push_io(table),
        Submodule::Logic => push_logic(table),
        Submodule::Manipulation => push_manipulation(table),
        Submodule::Mathematics => push_mathematics(table),
        Submodule::Poly => push_poly(table),
        Submodule::Searching => push_searching(table),
        Submodule::Setops => push_setops(table),
        Submodule::Sorting => push_sorting(table),
        Submodule::Statistics => push_statistics(table),
    }
}

} // verus!
