//! What a search request asks for.

use vstd::prelude::*;
use vstd::utf8::encode_utf8;

use crate::error::{invalid, RetrievalError};
use crate::service::fields::Fields;
use crate::service::form::{
    boundary_in, bytes_between, form_in, law_top_k_reads_back, multipart_boundary, no_form,
    parse_multipart, parse_top_k, parse_urlencoded, text_from_bytes, text_in, texts, top_k_of,
    url_values, FormView,
};
use crate::service::http::HttpRequest;
use crate::text::{
    decimal, decimal_text, is_blank, is_blank_text, number_of, parse_usize, NumberError,
};

verus! {

/// A search by a pair of the dataset.
#[derive(Clone, Copy, Debug, PartialEq, Eq, Structural)]
pub struct SampleQuery {
    pub sample: usize,
    pub top_k: usize,
}

/// The value of a name, where there is one.
pub open spec fn value_in(values: Map<Seq<char>, Seq<char>>, name: Seq<char>) -> Option<Seq<char>> {
    if values.dom().contains(name) {
        Some(values[name])
    } else {
        None
    }
}

/// The words for a query that names no pair of the dataset.
pub open spec fn sample_fault(sample: Option<Seq<char>>, pairs: nat) -> Option<Seq<char>> {
    match sample {
        None => Some("missing sample query parameter"@),
        Some(text) => match number_of(text, 10, usize::MAX as nat) {
            Err(_) => Some("sample must be a non-negative integer"@),
            Ok(n) => if n < pairs {
                None
            } else {
                Some("sample index "@ + decimal(n) + " out of range"@)
            },
        },
    }
}

/// The pair that a query names.
pub open spec fn sample_number(sample: Option<Seq<char>>) -> nat {
    number_of(sample->0, 10, usize::MAX as nat)->Ok_0
}

/// Whether `r` answers a query by a pair of the dataset.
pub open spec fn sample_outcome(
    values: Map<Seq<char>, Seq<char>>,
    pairs: nat,
    default_top_k: nat,
    r: Result<SampleQuery, RetrievalError>,
) -> bool {
    let sample = value_in(values, "sample"@);
    match sample_fault(sample, pairs) {
        Some(words) => r is Err && r->Err_0.says(words),
        None => {
            &&& r is Ok
            &&& r->Ok_0.sample == sample_number(sample)
            &&& r->Ok_0.sample < pairs
            &&& r->Ok_0.top_k == top_k_of(value_in(values, "k"@), default_top_k)
        },
    }
}

/// A value is found where its text is.
proof fn lemma_value(fields: Map<Seq<char>, String>, name: Seq<char>)
    ensures
        texts(fields).dom().contains(name) == fields.dom().contains(name),
        fields.dom().contains(name) ==> texts(fields)[name] == fields[name]@,
{
}

/// Reads a query by a pair of the dataset.
pub fn sample_search_from_query(query: &Fields<String>, pairs: usize, default_top_k: usize) -> (r: Result<
    SampleQuery,
    RetrievalError,
>)
    ensures
        sample_outcome(texts(query@), pairs as nat, default_top_k as nat, r),
        r is Ok <==> query@.dom().contains("sample"@) && {
            let number = number_of(query@["sample"@]@, 10, usize::MAX as nat);
            number is Ok && number->Ok_0 < pairs
        },
        r is Ok ==> r->Ok_0.sample == number_of(query@["sample"@]@, 10, usize::MAX as nat)->Ok_0,
        r is Ok ==> r->Ok_0.top_k == top_k_of(
            if query@.dom().contains("k"@) {
                Some(query@["k"@]@)
            } else {
                None
            },
            default_top_k as nat,
        ),
        !query@.dom().contains("sample"@) ==> r is Err && r->Err_0->0@
            == "missing sample query parameter"@,
        query@.dom().contains("sample"@) && number_of(
            query@["sample"@]@,
            10,
            usize::MAX as nat,
        ) is Err ==> r is Err && r->Err_0->0@ == "sample must be a non-negative integer"@,
        query@.dom().contains("sample"@) && number_of(
            query@["sample"@]@,
            10,
            usize::MAX as nat,
        ) is Ok && r is Err ==> r->Err_0->0@ == "sample index "@ + decimal(
            number_of(query@["sample"@]@, 10, usize::MAX as nat)->Ok_0,
        ) + " out of range"@,
{
    proof {
        lemma_value(query@, "sample"@);
        lemma_value(query@, "k"@);
    }
    let text = match query.get("sample") {
        Some(text) => text,
        None => return invalid("missing sample query parameter"),
    };
    let sample = match parse_usize(text.as_str()) {
        Ok(sample) => sample,
        Err(_) => return invalid("sample must be a non-negative integer"),
    };
    let top_k = parse_top_k(query.get("k"), default_top_k);
    if sample >= pairs {
        let mut words = "sample index ".to_owned();
        words.append(decimal_text(sample).as_str());
        words.append(" out of range");
        return invalid(words.as_str());
    }
    Ok(SampleQuery { sample, top_k })
}

/// A search that a form asks for.
#[derive(Debug)]
pub enum UploadQuery {
    /// By a pair of the dataset.
    Sample(SampleQuery),
    /// By an image that was uploaded.
    Image { image: Vec<u8>, top_k: usize },
}

/// The values of a form that asks for a pair: the pair, and the number of hits that was read.
pub open spec fn sample_values(sample: Seq<char>, top_k: nat) -> Map<Seq<char>, Seq<char>> {
    Map::<Seq<char>, Seq<char>>::empty().insert("sample"@, sample).insert("k"@, decimal(top_k))
}

/// Whether `r` is the search that a multipart form asks for: a pair that is named, and otherwise
/// the image.
pub open spec fn form_outcome(
    form: FormView,
    pairs: nat,
    default_top_k: nat,
    r: Result<UploadQuery, RetrievalError>,
) -> bool {
    let top_k = top_k_of(value_in(form.fields, "k"@), default_top_k);
    let sample = value_in(form.fields, "sample"@);
    if sample is Some && !is_blank(sample->0) {
        match r {
            Ok(query) => query is Sample && sample_outcome(
                sample_values(sample->0, top_k),
                pairs,
                default_top_k,
                Ok(query->Sample_0),
            ),
            Err(error) => sample_outcome(
                sample_values(sample->0, top_k),
                pairs,
                default_top_k,
                Err(error),
            ),
        }
    } else if !form.files.dom().contains("image"@) {
        r is Err && r->Err_0.says("upload an image or provide a sample id"@)
    } else if form.files["image"@].len() == 0 {
        r is Err && r->Err_0.says("uploaded image is empty"@)
    } else {
        &&& r is Ok
        &&& r->Ok_0 is Image
        &&& r->Ok_0->image@ == form.files["image"@]
        &&& r->Ok_0->top_k == top_k
    }
}

/// Whether `r` is the search that a POST request asks for: by its multipart form, or by the
/// URL-encoded pairs in its body.
pub open spec fn upload_outcome(
    content_type: Seq<char>,
    body: Seq<u8>,
    pairs: nat,
    default_top_k: nat,
    r: Result<UploadQuery, RetrievalError>,
) -> bool {
    match boundary_in(content_type) {
        Some(boundary) => match form_in(body, boundary) {
            None => r is Err && r->Err_0.says(no_form()),
            Some(form) => form_outcome(form, pairs, default_top_k, r),
        },
        None => {
            let values = url_values(encode_utf8(text_in(body)), 0, Map::empty());
            match r {
                Ok(query) => query is Sample && sample_outcome(
                    values,
                    pairs,
                    default_top_k,
                    Ok(query->Sample_0),
                ),
                Err(error) => sample_outcome(values, pairs, default_top_k, Err(error)),
            }
        },
    }
}

/// Turns a query by a pair into a search.
fn as_upload(query: Result<SampleQuery, RetrievalError>) -> (r: Result<UploadQuery, RetrievalError>)
    ensures
        match query {
            Ok(query) => r == Ok::<UploadQuery, RetrievalError>(UploadQuery::Sample(query)),
            Err(error) => r == Err::<UploadQuery, RetrievalError>(error),
        },
{
    match query {
        Ok(query) => Ok(UploadQuery::Sample(query)),
        Err(error) => Err(error),
    }
}

/// Reads the search that a POST request asks for.
pub fn upload_search(request: &HttpRequest, pairs: usize, default_top_k: usize) -> (r: Result<
    UploadQuery,
    RetrievalError,
>)
    ensures
        upload_outcome(
            request.content_type@,
            request.body@,
            pairs as nat,
            default_top_k as nat,
            r,
        ),
{
    let boundary = match multipart_boundary(request.content_type.as_str()) {
        Some(boundary) => boundary,
        None => {
            let body = text_from_bytes(request.body.as_slice());
            let values = parse_urlencoded(body.as_str());
            return as_upload(sample_search_from_query(&values, pairs, default_top_k));
        },
    };
    let form = match parse_multipart(request.body.as_slice(), boundary.as_str()) {
        Ok(form) => form,
        Err(error) => return Err(error),
    };
    proof {
        lemma_value(form.fields@, "sample"@);
        lemma_value(form.fields@, "k"@);
    }
    let top_k = parse_top_k(form.fields.get("k"), default_top_k);
    if let Some(sample) = form.fields.get("sample") {
        if !is_blank_text(sample.as_str()) {
            let mut query: Fields<String> = Fields::new();
            query.insert("sample".to_owned(), sample.clone());
            query.insert("k".to_owned(), decimal_text(top_k));
            proof {
                assert(texts(query@) =~= sample_values(sample@, top_k as nat));
            }
            return as_upload(sample_search_from_query(&query, pairs, default_top_k));
        }
    }
    let image = match form.files.get("image") {
        Some(image) => image,
        None => return invalid("upload an image or provide a sample id"),
    };
    if image.len() == 0 {
        return invalid("uploaded image is empty");
    }
    let copy = bytes_between(image.as_slice(), 0, image.len());
    assert(copy@ =~= image@);
    Ok(UploadQuery::Image { image: copy, top_k })
}

/// A search by a frame of a video.
#[derive(Debug)]
pub struct LiveQuery {
    pub frame: Vec<u8>,
    pub top_k: usize,
}

/// The frame that a multipart form holds: the file called frame, or else the one called image.
pub open spec fn frame_in(files: Map<Seq<char>, Seq<u8>>) -> Option<Seq<u8>> {
    if files.dom().contains("frame"@) {
        Some(files["frame"@])
    } else if files.dom().contains("image"@) {
        Some(files["image"@])
    } else {
        None
    }
}

/// The words for a live request without a frame, or the frame.
pub open spec fn live_frame(content_type: Seq<char>, body: Seq<u8>) -> Result<Seq<u8>, Seq<char>> {
    let frame = match boundary_in(content_type) {
        Some(boundary) => match form_in(body, boundary) {
            None => Err(no_form()),
            Some(form) => match frame_in(form.files) {
                None => Err("live frame request must include a frame or image file"@),
                Some(frame) => Ok(frame),
            },
        },
        None => Ok(body),
    };
    match frame {
        Err(words) => Err(words),
        Ok(frame) => if frame.len() == 0 {
            Err("live frame request body is empty"@)
        } else {
            Ok(frame)
        },
    }
}

/// Reads a live request: a frame in a multipart form, or the body itself.
pub fn live_search(request: &HttpRequest, default_top_k: usize) -> (r: Result<
    LiveQuery,
    RetrievalError,
>)
    ensures
        match live_frame(request.content_type@, request.body@) {
            Err(words) => r is Err && r->Err_0.says(words),
            Ok(frame) => {
                &&& r is Ok
                &&& r->Ok_0.frame@ == frame
                &&& r->Ok_0.top_k == top_k_of(
                    value_in(texts(request.query@), "k"@),
                    default_top_k as nat,
                )
            },
        },
        r is Ok ==> r->Ok_0.frame@.len() > 0,
        r is Ok ==> r->Ok_0.top_k == top_k_of(
            if request.query@.dom().contains("k"@) {
                Some(request.query@["k"@]@)
            } else {
                None
            },
            default_top_k as nat,
        ),
        boundary_in(request.content_type@) is None && request.body@.len() > 0 ==> r is Ok
            && r->Ok_0.frame@ == request.body@,
        boundary_in(request.content_type@) is None && request.body@.len() == 0 ==> r is Err
            && r->Err_0->0@ == "live frame request body is empty"@,
        boundary_in(request.content_type@) is Some ==> {
            let form = form_in(request.body@, boundary_in(request.content_type@)->0);
            &&& form is None ==> r is Err && r->Err_0->0@ == "invalid multipart form data"@
            &&& form is Some && form->0.files.dom().contains("frame"@) ==> {
                &&& r is Ok == (form->0.files["frame"@].len() > 0)
                &&& r is Ok ==> r->Ok_0.frame@ == form->0.files["frame"@]
                &&& r is Err ==> r->Err_0->0@ == "live frame request body is empty"@
            }
            &&& form is Some && !form->0.files.dom().contains("frame"@)
                && form->0.files.dom().contains("image"@) ==> {
                &&& r is Ok == (form->0.files["image"@].len() > 0)
                &&& r is Ok ==> r->Ok_0.frame@ == form->0.files["image"@]
                &&& r is Err ==> r->Err_0->0@ == "live frame request body is empty"@
            }
            &&& form is Some && !form->0.files.dom().contains("frame"@)
                && !form->0.files.dom().contains("image"@) ==> r is Err && r->Err_0->0@
                == "live frame request must include a frame or image file"@
        },
{
    proof {
        lemma_value(request.query@, "k"@);
    }
    let top_k = parse_top_k(request.query.get("k"), default_top_k);
    let frame: Vec<u8> = match multipart_boundary(request.content_type.as_str()) {
        Some(boundary) => {
            let form = match parse_multipart(request.body.as_slice(), boundary.as_str()) {
                Ok(form) => form,
                Err(error) => return Err(error),
            };
            let file = match form.files.get("frame") {
                Some(file) => file,
                None => match form.files.get("image") {
                    Some(file) => file,
                    None => return invalid("live frame request must include a frame or image file"),
                },
            };
            let copy = bytes_between(file.as_slice(), 0, file.len());
            assert(copy@ =~= file@);
            copy
        },
        None => {
            let copy = bytes_between(request.body.as_slice(), 0, request.body.len());
            assert(copy@ =~= request.body@);
            copy
        },
    };
    if frame.len() == 0 {
        return invalid("live frame request body is empty");
    }
    Ok(LiveQuery { frame, top_k })
}

/// How a search by a pair is called.
pub open spec fn sample_label(sample: nat, id: Seq<char>) -> Seq<char> {
    "sample #"@ + decimal(sample) + " "@ + id
}

/// How a search by a pair is called.
pub fn sample_source(sample: usize, id: &str) -> (r: String)
    ensures
        r@ == sample_label(sample as nat, id@),
        r@ == "sample #"@ + decimal(sample as nat) + " "@ + id@,
{
    let mut r = "sample #".to_owned();
    r.append(decimal_text(sample).as_str());
    r.append(" ");
    r.append(id);
    r
}

/// A form that names a pair is searched with the number of hits that it asks for.
pub proof fn law_form_keeps_number_of_hits(
    form: FormView,
    pairs: nat,
    default_top_k: nat,
    r: Result<UploadQuery, RetrievalError>,
)
    requires
        form_outcome(form, pairs, default_top_k, r),
        r is Ok,
    ensures
        match r->Ok_0 {
            UploadQuery::Sample(query) => query.top_k,
            UploadQuery::Image { image, top_k } => top_k,
        } == top_k_of(value_in(form.fields, "k"@), default_top_k),
{
    let top_k = top_k_of(value_in(form.fields, "k"@), default_top_k);
    law_top_k_reads_back(
        value_in(form.fields, "k"@),
        default_top_k,
        default_top_k,
    );
    let sample = value_in(form.fields, "sample"@);
    if sample is Some {
        let values = sample_values(sample->0, top_k);
        assert(value_in(values, "k"@) == Some(decimal(top_k)));
    }
}

/// A form that names a pair of the dataset is a search by that pair, though it holds an image too;
/// one that names none is a search by its image.
pub proof fn law_a_named_pair_goes_before_an_image(
    form: FormView,
    pairs: nat,
    default_top_k: nat,
    r: Result<UploadQuery, RetrievalError>,
)
    requires
        form_outcome(form, pairs, default_top_k, r),
    ensures
        ({
            let names_pair = form.fields.dom().contains("sample"@) && !is_blank(
                form.fields["sample"@],
            );
            let image = form.files["image"@];
            let has_image = form.files.dom().contains("image"@);
            &&& r is Ok ==> (r->Ok_0 is Sample) == names_pair
            &&& names_pair && r is Ok ==> {
                &&& number_of(form.fields["sample"@], 10, usize::MAX as nat) == Ok::<
                    nat,
                    NumberError,
                >(r->Ok_0->Sample_0.sample as nat)
                &&& r->Ok_0->Sample_0.sample < pairs
            }
            &&& names_pair && number_of(form.fields["sample"@], 10, usize::MAX as nat) is Ok
                && number_of(form.fields["sample"@], 10, usize::MAX as nat)->Ok_0 < pairs ==> r is Ok
            &&& !names_pair && has_image && image.len() > 0 ==> r is Ok && r->Ok_0->image@ == image
            &&& !names_pair && has_image && image.len() == 0 ==> r is Err && r->Err_0->0@
                == "uploaded image is empty"@
            &&& !names_pair && !has_image ==> r is Err && r->Err_0->0@
                == "upload an image or provide a sample id"@
        }),
{
    reveal_strlit("sample");
    reveal_strlit("k");
    assert("sample"@.len() == 6 && "k"@.len() == 1);
    let sample = value_in(form.fields, "sample"@);
    if sample is Some {
        let top_k = top_k_of(value_in(form.fields, "k"@), default_top_k);
        let values = sample_values(sample->0, top_k);
        assert(value_in(values, "sample"@) == Some(sample->0));
    }
}

/// A request with a multipart body is a search by the form in it, and any other request one by the
/// URL-encoded pairs in its body.
pub proof fn law_content_type_says_how_a_body_is_read(
    content_type: Seq<char>,
    body: Seq<u8>,
    pairs: nat,
    default_top_k: nat,
    r: Result<UploadQuery, RetrievalError>,
)
    requires
        upload_outcome(content_type, body, pairs, default_top_k, r),
    ensures
        boundary_in(content_type) is Some && form_in(body, boundary_in(content_type)->0) is None
            ==> r is Err && r->Err_0->0@ == "invalid multipart form data"@,
        boundary_in(content_type) is Some && form_in(body, boundary_in(content_type)->0) is Some
            ==> form_outcome(
            form_in(body, boundary_in(content_type)->0)->0,
            pairs,
            default_top_k,
            r,
        ),
        boundary_in(content_type) is None ==> {
            let values = url_values(encode_utf8(text_in(body)), 0, Map::empty());
            &&& r is Ok ==> r->Ok_0 is Sample
            &&& r is Ok <==> values.dom().contains("sample"@) && number_of(
                values["sample"@],
                10,
                usize::MAX as nat,
            ) is Ok && number_of(values["sample"@], 10, usize::MAX as nat)->Ok_0 < pairs
            &&& r is Ok ==> r->Ok_0->Sample_0.sample == number_of(
                values["sample"@],
                10,
                usize::MAX as nat,
            )->Ok_0
        },
{
}

} // verus!
