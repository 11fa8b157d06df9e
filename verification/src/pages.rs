//! Finding the pages of a document and the content of a page.

use vstd::prelude::*;
use crate::names::{
    name_contents, name_kids, name_pages, name_root, spec_name_contents, spec_name_kids,
    spec_name_pages, spec_name_root,
};
use crate::name_map::entries_get;
use crate::name_map::lemma_find_key;
use crate::pdf::ast::{
    dict_of, lemma_value_dict_view, spec_decode, values_view, vec_of, Pdf,
    SpecValue, Value,
};

verus! {

/// The page objects of a document: the `/Kids` array of the `/Pages`
/// dictionary of the `/Root` dictionary that the trailer names.
pub open spec fn spec_get_pages(pdf: &Pdf) -> Option<Seq<SpecValue>> {
    match pdf.spec_trailer() {
        Some(t) => {
            if t.contains_key(spec_name_root()) {
                match pdf.spec_object(t[spec_name_root()]) {
                    Some(root) => {
                        let rd = dict_of(root);
                        if root is Dict && rd.contains_key(spec_name_pages()) {
                            match pdf.spec_object(rd[spec_name_pages()]) {
                                Some(pages) => {
                                    let pd = dict_of(pages);
                                    if pages is Dict && pd.contains_key(spec_name_kids())
                                        && pd[spec_name_kids()] is Vector {
                                        Some(vec_of(pd[spec_name_kids()]))
                                    } else {
                                        None
                                    }
                                },
                                None => None,
                            }
                        } else {
                            None
                        }
                    },
                    None => None,
                }
            } else {
                None
            }
        },
        None => None,
    }
}

/// The page objects of a document, or `None` where the document does not
/// lead to them.
pub fn try_get_pages(ast: &Pdf) -> (r: Option<&Vec<Value>>)
    ensures
        match r {
            Some(kids) => spec_get_pages(ast) == Some(values_view(kids@)),
            None => spec_get_pages(ast) is None,
        },
{
    let trailer = match ast.try_get_trailer_dict() {
        Some(t) => t,
        None => {
            return None;
        },
    };
    proof {
        lemma_value_dict_view(trailer@);
        lemma_find_key(trailer@, spec_name_root());
    }
    let root_ref = match entries_get(trailer, name_root().as_slice()) {
        Some(r) => r,
        None => {
            return None;
        },
    };
    if !Value::is_obj_ref(root_ref) {
        return None;
    }
    let root = match ast.try_get_object(root_ref) {
        Some(o) => o,
        None => {
            return None;
        },
    };
    match root {
        Value::Dict(_) => {},
        _ => {
            return None;
        },
    }
    let pages_ref = match root.try_get(name_pages().as_slice()) {
        Some(p) => p,
        None => {
            return None;
        },
    };
    if !Value::is_obj_ref(pages_ref) {
        return None;
    }
    let pages = match ast.try_get_object(pages_ref) {
        Some(o) => o,
        None => {
            return None;
        },
    };
    match pages {
        Value::Dict(_) => {},
        _ => {
            return None;
        },
    }
    let kids = match pages.try_get(name_kids().as_slice()) {
        Some(k) => k,
        None => {
            return None;
        },
    };
    match kids {
        Value::Vector(v) => Some(v),
        _ => None,
    }
}

/// The page objects of a document.
pub fn get_pages(ast: &Pdf) -> (r: &Vec<Value>)
    requires
        spec_get_pages(ast) is Some,
    ensures
        spec_get_pages(ast) == Some(values_view(r@)),
{
    match try_get_pages(ast) {
        Some(kids) => kids,
        None => vstd::pervasive::unreached(),
    }
}

/// The decoded content stream of a page: the stream its `/Contents`
/// refers to, decompressed.
pub open spec fn spec_page_contents(pdf: &Pdf, page: SpecValue) -> Option<Seq<u8>> {
    let d = dict_of(page);
    if page is Dict && d.contains_key(spec_name_contents()) {
        match pdf.spec_object(d[spec_name_contents()]) {
            Some(c) => spec_decode(c),
            None => None,
        }
    } else {
        None
    }
}

/// The decoded content stream of a page, or `None` where it has none that
/// decodes.
pub fn try_page_contents(ast: &Pdf, page: &Value) -> (r: Option<Vec<u8>>)
    ensures
        match r {
            Some(b) => spec_page_contents(ast, page@) == Some(b@),
            None => spec_page_contents(ast, page@) is None,
        },
{
    match page {
        Value::Dict(_) => {},
        _ => {
            return None;
        },
    }
    let cref = match page.try_get(name_contents().as_slice()) {
        Some(c) => c,
        None => {
            return None;
        },
    };
    if !Value::is_obj_ref(cref) {
        return None;
    }
    let contents = match ast.try_get_object(cref) {
        Some(o) => o,
        None => {
            return None;
        },
    };
    contents.try_decode()
}

} // verus!
