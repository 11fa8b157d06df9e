//! The PDF names that the viewer looks up, as byte strings.

use vstd::prelude::*;

verus! {

/// `Filter`
pub open spec fn spec_name_filter() -> Seq<u8> {
    seq![70u8, 105, 108, 116, 101, 114]
}

pub fn name_filter() -> (r: Vec<u8>)
    ensures
        r@ == spec_name_filter(),
{
    let r: Vec<u8> = vec![70u8, 105, 108, 116, 101, 114];
    assert(r@ =~= spec_name_filter());
    r
}

/// `FlateDecode`
pub open spec fn spec_name_flate_decode() -> Seq<u8> {
    seq![70u8, 108, 97, 116, 101, 68, 101, 99, 111, 100, 101]
}

pub fn name_flate_decode() -> (r: Vec<u8>)
    ensures
        r@ == spec_name_flate_decode(),
{
    let r: Vec<u8> = vec![70u8, 108, 97, 116, 101, 68, 101, 99, 111, 100, 101];
    assert(r@ =~= spec_name_flate_decode());
    r
}

/// `Width`
pub open spec fn spec_name_width() -> Seq<u8> {
    seq![87u8, 105, 100, 116, 104]
}

pub fn name_width() -> (r: Vec<u8>)
    ensures
        r@ == spec_name_width(),
{
    let r: Vec<u8> = vec![87u8, 105, 100, 116, 104];
    assert(r@ =~= spec_name_width());
    r
}

/// `Height`
pub open spec fn spec_name_height() -> Seq<u8> {
    seq![72u8, 101, 105, 103, 104, 116]
}

pub fn name_height() -> (r: Vec<u8>)
    ensures
        r@ == spec_name_height(),
{
    let r: Vec<u8> = vec![72u8, 101, 105, 103, 104, 116];
    assert(r@ =~= spec_name_height());
    r
}

/// `ColorSpace`
pub open spec fn spec_name_color_space() -> Seq<u8> {
    seq![67u8, 111, 108, 111, 114, 83, 112, 97, 99, 101]
}

pub fn name_color_space() -> (r: Vec<u8>)
    ensures
        r@ == spec_name_color_space(),
{
    let r: Vec<u8> = vec![67u8, 111, 108, 111, 114, 83, 112, 97, 99, 101];
    assert(r@ =~= spec_name_color_space());
    r
}

/// `Subtype`
pub open spec fn spec_name_subtype() -> Seq<u8> {
    seq![83u8, 117, 98, 116, 121, 112, 101]
}

pub fn name_subtype() -> (r: Vec<u8>)
    ensures
        r@ == spec_name_subtype(),
{
    let r: Vec<u8> = vec![83u8, 117, 98, 116, 121, 112, 101];
    assert(r@ =~= spec_name_subtype());
    r
}

/// `Image`
pub open spec fn spec_name_image() -> Seq<u8> {
    seq![73u8, 109, 97, 103, 101]
}

pub fn name_image() -> (r: Vec<u8>)
    ensures
        r@ == spec_name_image(),
{
    let r: Vec<u8> = vec![73u8, 109, 97, 103, 101];
    assert(r@ =~= spec_name_image());
    r
}

/// `ICCBased`
pub open spec fn spec_name_icc_based() -> Seq<u8> {
    seq![73u8, 67, 67, 66, 97, 115, 101, 100]
}

pub fn name_icc_based() -> (r: Vec<u8>)
    ensures
        r@ == spec_name_icc_based(),
{
    let r: Vec<u8> = vec![73u8, 67, 67, 66, 97, 115, 101, 100];
    assert(r@ =~= spec_name_icc_based());
    r
}

/// `N`
pub open spec fn spec_name_n() -> Seq<u8> {
    seq![78u8]
}

pub fn name_n() -> (r: Vec<u8>)
    ensures
        r@ == spec_name_n(),
{
    let r: Vec<u8> = vec![78u8];
    assert(r@ =~= spec_name_n());
    r
}

/// `DeviceGray`
pub open spec fn spec_name_device_gray() -> Seq<u8> {
    seq![68u8, 101, 118, 105, 99, 101, 71, 114, 97, 121]
}

pub fn name_device_gray() -> (r: Vec<u8>)
    ensures
        r@ == spec_name_device_gray(),
{
    let r: Vec<u8> = vec![68u8, 101, 118, 105, 99, 101, 71, 114, 97, 121];
    assert(r@ =~= spec_name_device_gray());
    r
}

/// `DeviceRGB`
pub open spec fn spec_name_device_rgb() -> Seq<u8> {
    seq![68u8, 101, 118, 105, 99, 101, 82, 71, 66]
}

pub fn name_device_rgb() -> (r: Vec<u8>)
    ensures
        r@ == spec_name_device_rgb(),
{
    let r: Vec<u8> = vec![68u8, 101, 118, 105, 99, 101, 82, 71, 66];
    assert(r@ =~= spec_name_device_rgb());
    r
}

/// `Type`
pub open spec fn spec_name_type() -> Seq<u8> {
    seq![84u8, 121, 112, 101]
}

pub fn name_type() -> (r: Vec<u8>)
    ensures
        r@ == spec_name_type(),
{
    let r: Vec<u8> = vec![84u8, 121, 112, 101];
    assert(r@ =~= spec_name_type());
    r
}

/// `Font`
pub open spec fn spec_name_font() -> Seq<u8> {
    seq![70u8, 111, 110, 116]
}

pub fn name_font() -> (r: Vec<u8>)
    ensures
        r@ == spec_name_font(),
{
    let r: Vec<u8> = vec![70u8, 111, 110, 116];
    assert(r@ =~= spec_name_font());
    r
}

/// `FontDescriptor`
pub open spec fn spec_name_font_descriptor() -> Seq<u8> {
    seq![70u8, 111, 110, 116, 68, 101, 115, 99, 114, 105, 112, 116, 111, 114]
}

pub fn name_font_descriptor() -> (r: Vec<u8>)
    ensures
        r@ == spec_name_font_descriptor(),
{
    let r: Vec<u8> = vec![70u8, 111, 110, 116, 68, 101, 115, 99, 114, 105, 112, 116, 111, 114];
    assert(r@ =~= spec_name_font_descriptor());
    r
}

/// `Widths`
pub open spec fn spec_name_widths() -> Seq<u8> {
    seq![87u8, 105, 100, 116, 104, 115]
}

pub fn name_widths() -> (r: Vec<u8>)
    ensures
        r@ == spec_name_widths(),
{
    let r: Vec<u8> = vec![87u8, 105, 100, 116, 104, 115];
    assert(r@ =~= spec_name_widths());
    r
}

/// `Encoding`
pub open spec fn spec_name_encoding() -> Seq<u8> {
    seq![69u8, 110, 99, 111, 100, 105, 110, 103]
}

pub fn name_encoding() -> (r: Vec<u8>)
    ensures
        r@ == spec_name_encoding(),
{
    let r: Vec<u8> = vec![69u8, 110, 99, 111, 100, 105, 110, 103];
    assert(r@ =~= spec_name_encoding());
    r
}

/// `TrueType`
pub open spec fn spec_name_true_type() -> Seq<u8> {
    seq![84u8, 114, 117, 101, 84, 121, 112, 101]
}

pub fn name_true_type() -> (r: Vec<u8>)
    ensures
        r@ == spec_name_true_type(),
{
    let r: Vec<u8> = vec![84u8, 114, 117, 101, 84, 121, 112, 101];
    assert(r@ =~= spec_name_true_type());
    r
}

/// `FontFile2`
pub open spec fn spec_name_font_file2() -> Seq<u8> {
    seq![70u8, 111, 110, 116, 70, 105, 108, 101, 50]
}

pub fn name_font_file2() -> (r: Vec<u8>)
    ensures
        r@ == spec_name_font_file2(),
{
    let r: Vec<u8> = vec![70u8, 111, 110, 116, 70, 105, 108, 101, 50];
    assert(r@ =~= spec_name_font_file2());
    r
}

/// `FontName`
pub open spec fn spec_name_font_name() -> Seq<u8> {
    seq![70u8, 111, 110, 116, 78, 97, 109, 101]
}

pub fn name_font_name() -> (r: Vec<u8>)
    ensures
        r@ == spec_name_font_name(),
{
    let r: Vec<u8> = vec![70u8, 111, 110, 116, 78, 97, 109, 101];
    assert(r@ =~= spec_name_font_name());
    r
}

/// `FirstChar`
pub open spec fn spec_name_first_char() -> Seq<u8> {
    seq![70u8, 105, 114, 115, 116, 67, 104, 97, 114]
}

pub fn name_first_char() -> (r: Vec<u8>)
    ensures
        r@ == spec_name_first_char(),
{
    let r: Vec<u8> = vec![70u8, 105, 114, 115, 116, 67, 104, 97, 114];
    assert(r@ =~= spec_name_first_char());
    r
}

/// `SMask`
pub open spec fn spec_name_s_mask() -> Seq<u8> {
    seq![83u8, 77, 97, 115, 107]
}

pub fn name_s_mask() -> (r: Vec<u8>)
    ensures
        r@ == spec_name_s_mask(),
{
    let r: Vec<u8> = vec![83u8, 77, 97, 115, 107];
    assert(r@ =~= spec_name_s_mask());
    r
}

/// `Resources`
pub open spec fn spec_name_resources() -> Seq<u8> {
    seq![82u8, 101, 115, 111, 117, 114, 99, 101, 115]
}

pub fn name_resources() -> (r: Vec<u8>)
    ensures
        r@ == spec_name_resources(),
{
    let r: Vec<u8> = vec![82u8, 101, 115, 111, 117, 114, 99, 101, 115];
    assert(r@ =~= spec_name_resources());
    r
}

/// `XObject`
pub open spec fn spec_name_x_object() -> Seq<u8> {
    seq![88u8, 79, 98, 106, 101, 99, 116]
}

pub fn name_x_object() -> (r: Vec<u8>)
    ensures
        r@ == spec_name_x_object(),
{
    let r: Vec<u8> = vec![88u8, 79, 98, 106, 101, 99, 116];
    assert(r@ =~= spec_name_x_object());
    r
}

/// `MediaBox`
pub open spec fn spec_name_media_box() -> Seq<u8> {
    seq![77u8, 101, 100, 105, 97, 66, 111, 120]
}

pub fn name_media_box() -> (r: Vec<u8>)
    ensures
        r@ == spec_name_media_box(),
{
    let r: Vec<u8> = vec![77u8, 101, 100, 105, 97, 66, 111, 120];
    assert(r@ =~= spec_name_media_box());
    r
}

/// `Root`
pub open spec fn spec_name_root() -> Seq<u8> {
    seq![82u8, 111, 111, 116]
}

pub fn name_root() -> (r: Vec<u8>)
    ensures
        r@ == spec_name_root(),
{
    let r: Vec<u8> = vec![82u8, 111, 111, 116];
    assert(r@ =~= spec_name_root());
    r
}

/// `Pages`
pub open spec fn spec_name_pages() -> Seq<u8> {
    seq![80u8, 97, 103, 101, 115]
}

pub fn name_pages() -> (r: Vec<u8>)
    ensures
        r@ == spec_name_pages(),
{
    let r: Vec<u8> = vec![80u8, 97, 103, 101, 115];
    assert(r@ =~= spec_name_pages());
    r
}

/// `Kids`
pub open spec fn spec_name_kids() -> Seq<u8> {
    seq![75u8, 105, 100, 115]
}

pub fn name_kids() -> (r: Vec<u8>)
    ensures
        r@ == spec_name_kids(),
{
    let r: Vec<u8> = vec![75u8, 105, 100, 115];
    assert(r@ =~= spec_name_kids());
    r
}

/// `Contents`
pub open spec fn spec_name_contents() -> Seq<u8> {
    seq![67u8, 111, 110, 116, 101, 110, 116, 115]
}

pub fn name_contents() -> (r: Vec<u8>)
    ensures
        r@ == spec_name_contents(),
{
    let r: Vec<u8> = vec![67u8, 111, 110, 116, 101, 110, 116, 115];
    assert(r@ =~= spec_name_contents());
    r
}

} // verus!
