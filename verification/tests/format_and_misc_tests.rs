use rsnumpy::array::{ArrayError, NdArray};
use rsnumpy::buffers::{bytes_to_floats, decode_buffer_scalar, from_buffer_typed, parse_typestr, BufferScalar};
use rsnumpy::intmath::exp_digit_count;
use rsnumpy::npy::{npy_bytes, npy_header_len, npy_shape, npy_values};
use rsnumpy::parsing::{categorize, merge_child_shapes, Nested, TypeFlags};
use rsnumpy::products::{dot_layout, matmul_layout, ProductKind};
use rsnumpy::registry::{register, Submodule};
use rsnumpy::repr::{base_repr, binary_repr};
use rsnumpy::shape::{checked_size, shape_size};
use rsnumpy::strides::{compute_strides, flat_to_multi};
use rsnumpy::textfmt::{extend_line, split_pos_float};

fn arr<T>(data: Vec<T>, shape: Vec<usize>) -> NdArray<T> {
    NdArray { data, shape }
}

fn chars(s: &str) -> Vec<char> {
    s.chars().collect()
}

#[test]
fn decode_integers_both_orders() {
    assert_eq!(decode_buffer_scalar('u', &[1, 2], true), Some(BufferScalar::Unsigned(513)));
    assert_eq!(decode_buffer_scalar('u', &[1, 2], false), Some(BufferScalar::Unsigned(258)));
    assert_eq!(decode_buffer_scalar('i', &[0xff], true), Some(BufferScalar::Signed(-1)));
    assert_eq!(decode_buffer_scalar('i', &[0xfe, 0xff], true), Some(BufferScalar::Signed(-2)));
    assert_eq!(decode_buffer_scalar('i', &[0x80, 0, 0, 0], false), Some(BufferScalar::Signed(-2147483648)));
    assert_eq!(decode_buffer_scalar('u', &[0xff; 8], true), Some(BufferScalar::Unsigned(u64::MAX)));
    assert_eq!(decode_buffer_scalar('b', &[0], true), Some(BufferScalar::Bool(false)));
    assert_eq!(decode_buffer_scalar('b', &[3], true), Some(BufferScalar::Bool(true)));
}

#[test]
fn decode_floats_and_unknown() {
    let bytes = 1.5f32.to_le_bytes();
    assert_eq!(decode_buffer_scalar('f', &bytes, true), Some(BufferScalar::Float32Bits(1.5f32.to_bits())));
    let be = 2.25f64.to_be_bytes();
    assert_eq!(decode_buffer_scalar('f', &be, false), Some(BufferScalar::Float64Bits(2.25f64.to_bits())));
    assert_eq!(decode_buffer_scalar('x', &[1], true), None);
    assert_eq!(decode_buffer_scalar('u', &[1, 2, 3], true), None);
}

#[test]
fn typestr_parsing() {
    let c = parse_typestr("<f8").unwrap();
    assert!(c.little && c.kind == 'f' && c.itemsize == 8);
    let c = parse_typestr(">i4").unwrap();
    assert!(!c.little && c.kind == 'i' && c.itemsize == 4);
    assert_eq!(parse_typestr("|u+1").unwrap().itemsize, 1);
    assert_eq!(parse_typestr("<f").err(), Some(ArrayError::InvalidArgument));
    assert_eq!(parse_typestr("<f0").err(), Some(ArrayError::InvalidArgument));
    assert_eq!(parse_typestr("<").err(), Some(ArrayError::InvalidArgument));
    assert_eq!(parse_typestr("<u 1").err(), Some(ArrayError::InvalidArgument));
}

#[test]
fn from_buffer_reads_shape() {
    let r = from_buffer_typed(&[1, 0, 2, 0, 3, 0, 4, 0], "<u2", &vec![2, 2]).unwrap();
    assert_eq!(r.shape, vec![2, 2]);
    assert_eq!(
        r.data,
        vec![BufferScalar::Unsigned(1), BufferScalar::Unsigned(2), BufferScalar::Unsigned(3), BufferScalar::Unsigned(4)]
    );
    assert_eq!(from_buffer_typed(&[1, 0, 2], "<u2", &vec![2]).err(), Some(ArrayError::ShapeMismatch));
    assert_eq!(from_buffer_typed(&[1, 0], "<c2", &vec![1]).err(), Some(ArrayError::UnsupportedType));
    assert_eq!(from_buffer_typed(&[], "<c2", &vec![0]).unwrap().data.len(), 0);
    assert_eq!(from_buffer_typed(&[1], "|u1", &vec![1]).unwrap().data, vec![BufferScalar::Unsigned(1)]);
    assert_eq!(from_buffer_typed(&[1], "u1", &vec![1]).err(), Some(ArrayError::InvalidArgument));
}

#[test]
fn bytes_to_floats_groups() {
    let mut bytes = Vec::new();
    bytes.extend_from_slice(&1.5f64.to_le_bytes());
    bytes.extend_from_slice(&(-2.0f64).to_le_bytes());
    bytes.push(7);
    let all = bytes_to_floats(&bytes, -1);
    assert_eq!(all.shape, vec![2]);
    assert_eq!(all.data, vec![1.5f64.to_bits(), (-2.0f64).to_bits()]);
    assert_eq!(bytes_to_floats(&bytes, 1).data, vec![1.5f64.to_bits()]);
    assert_eq!(bytes_to_floats(&bytes, 9).data.len(), 2);
}

fn read_back(file: &[u8], total: usize) -> (Vec<usize>, Vec<u64>) {
    let h = npy_header_len(file).unwrap();
    let text: Vec<char> = String::from_utf8_lossy(&file[10..10 + h]).chars().collect();
    let shape = npy_shape(&text);
    (shape, npy_values(&file[10 + h..], total))
}

#[test]
fn npy_file_layout() {
    let bits: Vec<u64> = (1..=6).map(|v| (v as f64).to_bits()).collect();
    let f = npy_bytes(&arr(bits, vec![2, 3]));
    assert_eq!(&f[0..8], &[0x93, b'N', b'U', b'M', b'P', b'Y', 1, 0]);
    let h = f[8] as usize + 256 * f[9] as usize;
    assert_eq!((10 + h) % 64, 0);
    let header = String::from_utf8(f[10..10 + h].to_vec()).unwrap();
    assert!(header.starts_with("{'descr': '<f8', 'fortran_order': False, 'shape': (2, 3), }"));
    assert!(header[59..].chars().all(|c| c == ' '));
    assert_eq!(f.len(), 10 + h + 48);
}

#[test]
fn npy_round_trip() {
    for shape in [vec![2, 3], vec![4], vec![], vec![1, 0, 2], vec![10, 1, 2, 1]] {
        let n: usize = shape.iter().product();
        let bits: Vec<u64> = (0..n).map(|v| (v as f64 * 0.5 - 3.0).to_bits()).collect();
        let f = npy_bytes(&arr(bits.clone(), shape.clone()));
        let (s, v) = read_back(&f, n);
        assert_eq!(s, shape);
        assert_eq!(v, bits);
    }
}

#[test]
fn npy_header_errors() {
    assert_eq!(npy_header_len(&[0x93, b'N', b'U']), Err(ArrayError::Truncated));
    assert_eq!(npy_header_len(b"XXXXXXXXXXXX"), Err(ArrayError::InvalidArgument));
    assert_eq!(npy_header_len(&[0x93, b'N', b'U', b'M', b'P', b'Y', 1, 0]), Err(ArrayError::Truncated));
    assert_eq!(npy_header_len(&[0x93, b'N', b'U', b'M', b'P', b'Y', 1, 0, 5, 0, b'{']), Err(ArrayError::Truncated));
}

#[test]
fn npy_shape_text_reading() {
    assert_eq!(npy_shape(&chars("{'shape': (4, x, 5), }")), vec![4, 5]);
    assert_eq!(npy_shape(&chars("no dimensions here")), Vec::<usize>::new());
    assert_eq!(npy_shape(&chars("{'shape': ( ), }")), Vec::<usize>::new());
    assert_eq!(npy_shape(&chars("{'shape': (7,), }")), vec![7]);
    assert_eq!(npy_shape(&chars("'shape' has no brackets")), Vec::<usize>::new());
}

#[test]
fn npy_values_fill_missing_with_zero() {
    let mut data = Vec::new();
    data.extend_from_slice(&5u64.to_le_bytes());
    data.extend_from_slice(&[1, 2, 3]);
    assert_eq!(npy_values(&data, 3), vec![5, 0, 0]);
}

#[test]
fn categorize_nested_lists() {
    let (s, f) = categorize(&Nested::List(vec![Nested::Int, Nested::Float])).unwrap();
    assert_eq!(s, vec![2]);
    assert_eq!(f.dtype_code(), 0);
    let (_, f) = categorize(&Nested::List(vec![Nested::Bool, Nested::Bool])).unwrap();
    assert_eq!(f.dtype_code(), 2);
    let (_, f) = categorize(&Nested::List(vec![Nested::Bool, Nested::Int])).unwrap();
    assert_eq!(f.dtype_code(), 1);
    let m = Nested::List(vec![Nested::List(vec![Nested::Int, Nested::Int]), Nested::List(vec![Nested::Int, Nested::Int])]);
    assert_eq!(categorize(&m).unwrap().0, vec![2, 2]);
    let empties = Nested::List(vec![Nested::List(vec![]), Nested::List(vec![])]);
    assert_eq!(categorize(&empties).unwrap().0, vec![2, 0]);
    assert_eq!(categorize(&Nested::List(vec![])).unwrap().0, vec![0]);
    assert_eq!(categorize(&Nested::Int).unwrap().0, Vec::<usize>::new());
}

#[test]
fn categorize_errors_in_reading_order() {
    let ragged = Nested::List(vec![Nested::List(vec![Nested::Int]), Nested::List(vec![Nested::Int, Nested::Int])]);
    assert_eq!(categorize(&ragged).err(), Some(ArrayError::ShapeMismatch));
    let mixed = Nested::List(vec![Nested::Int, Nested::List(vec![Nested::Int])]);
    assert_eq!(categorize(&mixed).err(), Some(ArrayError::ShapeMismatch));
    let other = Nested::List(vec![Nested::List(vec![Nested::Int]), Nested::List(vec![Nested::Other])]);
    assert_eq!(categorize(&other).err(), Some(ArrayError::InvalidArgument));
}

#[test]
fn type_flags_merge() {
    let mut f = TypeFlags::empty();
    assert_eq!(f.dtype_code(), 1);
    f.merge(TypeFlags { has_float: false, has_int: false, has_bool: true });
    assert_eq!(f.dtype_code(), 2);
    f.merge(TypeFlags { has_float: true, has_int: false, has_bool: false });
    assert_eq!(f.dtype_code(), 0);
}

#[test]
fn merge_child_shapes_rules() {
    assert_eq!(merge_child_shapes(2, &vec![vec![3], vec![3]]), Ok(vec![2, 3]));
    assert_eq!(merge_child_shapes(2, &vec![vec![0], vec![0]]), Ok(vec![2, 0]));
    assert_eq!(merge_child_shapes(2, &vec![vec![], vec![]]), Ok(vec![2]));
    assert_eq!(merge_child_shapes(2, &vec![vec![3], vec![2]]), Err(ArrayError::ShapeMismatch));
}

#[test]
fn matmul_layouts() {
    let l = matmul_layout(&vec![2, 3], &vec![3, 4]).unwrap();
    assert_eq!(l.kind, ProductKind::MatMat);
    assert_eq!((l.batch, l.m, l.n, l.p), (1, 2, 3, 4));
    assert_eq!(l.shape, vec![2, 4]);
    let l = matmul_layout(&vec![3], &vec![3]).unwrap();
    assert_eq!(l.kind, ProductKind::Inner);
    assert!(l.shape.is_empty());
    let l = matmul_layout(&vec![5, 2, 3], &vec![3, 4]).unwrap();
    assert_eq!(l.kind, ProductKind::Batched);
    assert_eq!((l.batch, l.m, l.n, l.p), (5, 2, 3, 4));
    assert_eq!(l.shape, vec![5, 2, 4]);
    let l = matmul_layout(&vec![2, 3], &vec![3]).unwrap();
    assert_eq!(l.kind, ProductKind::MatVec);
    assert_eq!(l.shape, vec![2]);
    assert_eq!(matmul_layout(&vec![2, 3], &vec![4, 5]).err(), Some(ArrayError::ShapeMismatch));
    assert_eq!(matmul_layout(&vec![2, 3, 4], &vec![4, 5, 6]).err(), Some(ArrayError::InvalidArgument));
}

#[test]
fn dot_layouts() {
    let l = dot_layout(&vec![3], &vec![3, 2]).unwrap();
    assert_eq!(l.kind, ProductKind::VecMat);
    assert_eq!(l.shape, vec![2]);
    assert_eq!(dot_layout(&vec![5, 2, 3], &vec![3, 4]).err(), Some(ArrayError::InvalidArgument));
}

#[test]
fn binary_representations() {
    assert_eq!(binary_repr(5, None), "101");
    assert_eq!(binary_repr(5, Some(6)), "000101");
    assert_eq!(binary_repr(-5, Some(8)), "11111011");
    assert_eq!(binary_repr(-5, None), "011");
    assert_eq!(binary_repr(0, None), "0");
}

#[test]
fn base_representations() {
    assert_eq!(base_repr(10, 2, 0), "1010");
    assert_eq!(base_repr(-255, 16, 2), "-00FF");
    assert_eq!(base_repr(35, 36, 0), "Z");
    assert_eq!(base_repr(0, 10, 0), "0");
    assert_eq!(base_repr(7, 1, 0), "");
}

#[test]
fn exponent_digits() {
    assert_eq!(exp_digit_count(5), 2);
    assert_eq!(exp_digit_count(-123), 3);
    assert_eq!(exp_digit_count(0), 2);
    assert_eq!(exp_digit_count(i32::MIN), 10);
}

#[test]
fn float_text_parts() {
    assert_eq!(split_pos_float("-12.345"), (3, 3));
    assert_eq!(split_pos_float("100"), (3, 0));
    assert_eq!(split_pos_float("1."), (1, 0));
}

#[test]
fn line_extension_wraps() {
    let mut s = String::new();
    let mut line = String::from("abc");
    extend_line(&mut s, &mut line, "defg", 5, "  ");
    assert_eq!(s, "abc\n");
    assert_eq!(line, "  defg");
    let mut s2 = String::from("x");
    let mut line2 = String::from("ab");
    extend_line(&mut s2, &mut line2, "c", 5, "  ");
    assert_eq!(s2, "x");
    assert_eq!(line2, "abc");
    let mut s3 = String::new();
    let mut line3 = String::from("ab  ");
    extend_line(&mut s3, &mut line3, "xyz", 5, " ");
    assert_eq!(s3, "ab\n");
    assert_eq!(line3, " xyz");
}

#[test]
fn register_buffer_group() {
    let mut table: Vec<&'static str> = vec!["before"];
    register(Submodule::Buffer, &mut table);
    assert_eq!(table, vec!["before", "bytes_to_floats", "from_buffer_typed", "array_interface", "isum", "imax", "tuple_getitem"]);
}

#[test]
fn sizes_and_strides() {
    assert_eq!(checked_size(&vec![2, 3, 4]), Some(24));
    assert_eq!(checked_size(&vec![usize::MAX, 2]), None);
    assert_eq!(checked_size(&vec![usize::MAX, 0]), Some(0));
    assert_eq!(shape_size(&vec![]), 1);
    assert_eq!(compute_strides(&vec![2, 3, 4]), vec![12, 4, 1]);
    assert_eq!(flat_to_multi(23, &vec![2, 3, 4]), vec![1, 2, 3]);
}

fn texts(v: &[&str]) -> Vec<String> {
    v.iter().map(|s| s.to_string()).collect()
}

#[test]
fn layout_of_a_row() {
    let r = rsnumpy::arrayfmt::wrap_recurse(&texts(&["1", "2", "3"]), &vec![3], " ", 75, " ");
    assert_eq!(r, Some("[1 2 3]".to_string()));
}

#[test]
fn layout_of_a_matrix() {
    let r = rsnumpy::arrayfmt::wrap_recurse(&texts(&["1", "2", "3", "4"]), &vec![2, 2], " ", 75, " ");
    assert_eq!(r, Some("[[1 2]\n [3 4]]".to_string()));
    let s = rsnumpy::arrayfmt::wrap_recurse(&texts(&["1", "2", "3", "4"]), &vec![2, 1, 2], " ", 75, ", ");
    assert_eq!(s, Some("[[[1, 2]],\n\n [[3, 4]]]".to_string()));
}

#[test]
fn layout_wraps_long_rows() {
    let r = rsnumpy::arrayfmt::wrap_recurse(&texts(&["aaaa", "bbbb", "cccc"]), &vec![3], " ", 10, ", ");
    assert_eq!(r, Some("[aaaa,\n bbbb,\n cccc]".to_string()));
}

#[test]
fn layout_edge_cases() {
    assert_eq!(rsnumpy::arrayfmt::wrap_recurse(&texts(&["7"]), &vec![], " ", 75, " "), Some("7".to_string()));
    assert_eq!(rsnumpy::arrayfmt::wrap_recurse(&vec![], &vec![0, 2], " ", 75, " "), None);
    assert_eq!(rsnumpy::arrayfmt::wrap_recurse(&vec![], &vec![0, 2], "", 75, " "), Some("[]".to_string()));
    assert_eq!(rsnumpy::arrayfmt::wrap_recurse(&vec![], &vec![0], " ", 75, " "), Some("[]".to_string()));
    assert_eq!(rsnumpy::arrayfmt::wrap_recurse(&texts(&[" ", "x"]), &vec![2], " \u{3000}", 5, " "), None);
}

#[test]
fn layout_multibyte_indent_is_cut_whole() {
    let r = rsnumpy::arrayfmt::wrap_recurse(&texts(&["1", "2"]), &vec![2], "\u{e9}", 75, " ");
    assert_eq!(r, Some("[1 2]".to_string()));
}
