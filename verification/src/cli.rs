//! What the command line decides.

use vstd::prelude::*;
use vstd::string::*;

use crate::error::{invalid, RetrievalError};
use crate::floats::{Double, Single};
use crate::pose::model::HeadUpsampleMode;
use crate::pose::network::LiteHrNetPoseConfig;
use crate::text::{
    chars_of, decimal, decimal_text, digit_char, find_next, law_decimal_reads_back, lemma_next_of,
    next_of, number_of, padded, padded_text, parse_usize, string_of, NumberError,
};

verus! {

/// The size of input images.
#[derive(Clone, Copy, Debug, PartialEq, Eq, Structural)]
pub struct InputSize {
    pub height: usize,
    pub width: usize,
}

/// The words for a text that is no positive number.
pub open spec fn number_fault(value: Seq<char>, label: Seq<char>) -> Option<Seq<char>> {
    match number_of(value, 10, usize::MAX as nat) {
        Err(error) => Some("invalid "@ + label + " `"@ + value + "`: "@ + error.words()),
        Ok(n) => if n == 0 {
            Some(label + " must be greater than 0"@)
        } else {
            None
        },
    }
}

/// The positive number that a text stands for.
pub open spec fn positive_number(value: Seq<char>) -> nat {
    number_of(value, 10, usize::MAX as nat)->Ok_0
}

/// Reads a positive number.
pub fn parse_positive_usize(value: &str, label: &str) -> (r: Result<usize, String>)
    ensures
        match number_fault(value@, label@) {
            Some(words) => r is Err && r->Err_0@ == words,
            None => r is Ok && r->Ok_0 == positive_number(value@) && r->Ok_0 > 0,
        },
        match number_of(value@, 10, usize::MAX as nat) {
            Ok(n) => if n > 0 {
                r is Ok && r->Ok_0 == n
            } else {
                r is Err && r->Err_0@ == label@ + " must be greater than 0"@
            },
            Err(error) => r is Err && r->Err_0@ == "invalid "@ + label@ + " `"@ + value@ + "`: "@
                + error.words(),
        },
{
    match parse_usize(value) {
        Err(error) => {
            let mut words = "invalid ".to_owned();
            words.append(label);
            words.append(" `");
            words.append(value);
            words.append("`: ");
            words.append(error.as_str());
            Err(words)
        },
        Ok(n) => if n == 0 {
            let mut words = label.to_owned();
            words.append(" must be greater than 0");
            Err(words)
        } else {
            Ok(n)
        },
    }
}

/// Reads a positive count.
pub fn parse_positive_count(value: &str) -> (r: Result<usize, String>)
    ensures
        match number_fault(value@, "value"@) {
            Some(words) => r is Err && r->Err_0@ == words,
            None => r is Ok && r->Ok_0 == positive_number(value@) && r->Ok_0 > 0,
        },
{
    parse_positive_usize(value, "value")
}

/// Where height and width are separated: at the first small x, or else at the first capital.
pub open spec fn size_separator(value: Seq<char>) -> int {
    let small = next_of(value, 'x', 0);
    if small < value.len() {
        small
    } else {
        next_of(value, 'X', 0)
    }
}

/// The words for a text that is no input size.
pub open spec fn size_fault(value: Seq<char>) -> Option<Seq<char>> {
    let at = size_separator(value);
    if at >= value.len() {
        Some("expected HEIGHTxWIDTH, for example 256x192"@)
    } else if number_fault(value.take(at), "height"@) is Some {
        number_fault(value.take(at), "height"@)
    } else {
        number_fault(value.skip(at + 1), "width"@)
    }
}

/// Reads an input size.
pub fn parse_input_size(value: &str) -> (r: Result<InputSize, String>)
    ensures
        match size_fault(value@) {
            Some(words) => r is Err && r->Err_0@ == words,
            None => {
                let at = size_separator(value@);
                &&& r is Ok
                &&& r->Ok_0.height == positive_number(value@.take(at))
                &&& r->Ok_0.width == positive_number(value@.skip(at + 1))
                &&& r->Ok_0.height > 0
                &&& r->Ok_0.width > 0
            },
        },
{
    let chars = chars_of(value);
    let n: usize = chars.len();
    let small = find_next(&chars, 'x', 0);
    let at: usize = if small < n {
        small
    } else {
        find_next(&chars, 'X', 0)
    };
    if at >= n {
        return Err("expected HEIGHTxWIDTH, for example 256x192".to_owned());
    }
    let height_text = string_of(&chars, 0, at);
    let width_text = string_of(&chars, at + 1, n);
    assert(height_text@ =~= value@.take(at as int));
    assert(width_text@ =~= value@.skip(at + 1));
    let height = match parse_positive_usize(height_text.as_str(), "height") {
        Ok(height) => height,
        Err(words) => return Err(words),
    };
    let width = match parse_positive_usize(width_text.as_str(), "width") {
        Ok(width) => width,
        Err(words) => return Err(words),
    };
    Ok(InputSize { height, width })
}

/// An input size in words.
pub open spec fn size_text(height: nat, width: nat) -> Seq<char> {
    decimal(height) + seq!['x'] + decimal(width)
}

/// Decimal digits hold no separator.
proof fn lemma_decimal_has_no_x(n: nat)
    ensures
        forall|i: int| 0 <= i < decimal(n).len() ==> #[trigger] decimal(n)[i] != 'x',
    decreases n,
{
    if n >= 10 {
        lemma_decimal_has_no_x(n / 10);
        let rest = decimal(n / 10);
        assert forall|i: int| 0 <= i < decimal(n).len() implies #[trigger] decimal(n)[i] != 'x' by {
            if i < rest.len() {
                assert(decimal(n)[i] == rest[i]);
            } else {
                assert(decimal(n)[i] == digit_char(n % 10));
            }
        }
    }
}

/// An input size that is written down reads back.
pub proof fn law_input_size_reads_back(height: nat, width: nat)
    requires
        0 < height <= usize::MAX,
        0 < width <= usize::MAX,
    ensures
        size_fault(size_text(height, width)) is None,
        ({
            let text = size_text(height, width);
            let at = size_separator(text);
            &&& positive_number(text.take(at)) == height
            &&& positive_number(text.skip(at + 1)) == width
        }),
{
    let text = size_text(height, width);
    let h = decimal(height);
    lemma_decimal_has_no_x(height);
    lemma_next_of(text, 'x', 0);
    let at = next_of(text, 'x', 0);
    assert(text[h.len() as int] == 'x');
    assert(at == h.len()) by {
        if at < h.len() {
            assert(text[at] == h[at]);
        }
    }
    assert(text.take(at) =~= h);
    assert(text.skip(at + 1) =~= decimal(width));
    law_decimal_reads_back(height, usize::MAX as nat);
    law_decimal_reads_back(width, usize::MAX as nat);
}

/// The words for a number that is not finite or not above zero.
pub open spec fn not_positive() -> Seq<char> {
    "value must be a finite number greater than 0"@
}

/// Checks a number that was read.
pub fn ensure_positive_double(value: Double) -> (r: Result<Double, String>)
    ensures
        r is Ok == value.positive_finite(),
        r is Ok ==> r->Ok_0 == value,
        r is Err ==> r->Err_0@ == not_positive(),
        r is Err ==> r->Err_0@ == "value must be a finite number greater than 0"@,
{
    if value.is_positive_finite() {
        Ok(value)
    } else {
        Err("value must be a finite number greater than 0".to_owned())
    }
}

/// Checks a number that was read.
pub fn ensure_positive_single(value: Single) -> (r: Result<Single, String>)
    ensures
        r is Ok == (value.finite() && value.rank() > 0),
        r is Ok ==> r->Ok_0 == value,
        r is Err ==> r->Err_0@ == not_positive(),
        r is Err ==> r->Err_0@ == "value must be a finite number greater than 0"@,
{
    if value.is_finite() && (Single { bits: 0 }).less(value) {
        Ok(value)
    } else {
        Err("value must be a finite number greater than 0".to_owned())
    }
}

/// The backend that computes.
#[derive(Clone, Copy, Debug, PartialEq, Eq, Structural)]
pub enum BackendArg {
    Flex,
    Metal,
}

impl BackendArg {
    /// The name of the backend.
    pub open spec fn name(self) -> Seq<char> {
        match self {
            BackendArg::Flex => "flex"@,
            BackendArg::Metal => "metal"@,
        }
    }

    pub fn as_str(self) -> (r: &'static str)
        ensures
            r@ == self.name(),
            self == BackendArg::Flex ==> r@ == "flex"@,
            self == BackendArg::Metal ==> r@ == "metal"@,
    {
        match self {
            BackendArg::Flex => "flex",
            BackendArg::Metal => "metal",
        }
    }
}

/// The variant of the network.
#[derive(Clone, Copy, Debug, PartialEq, Eq, Structural)]
pub enum ModelArg {
    LiteHrNet18,
    LiteHrNet30,
}

impl ModelArg {
    /// The name of the variant.
    pub open spec fn name(self) -> Seq<char> {
        match self {
            ModelArg::LiteHrNet18 => "litehrnet18"@,
            ModelArg::LiteHrNet30 => "litehrnet30"@,
        }
    }

    pub fn as_str(self) -> (r: &'static str)
        ensures
            r@ == self.name(),
            self == ModelArg::LiteHrNet18 ==> r@ == "litehrnet18"@,
            self == ModelArg::LiteHrNet30 ==> r@ == "litehrnet30"@,
    {
        match self {
            ModelArg::LiteHrNet18 => "litehrnet18",
            ModelArg::LiteHrNet30 => "litehrnet30",
        }
    }

    /// The configuration of the variant.
    pub fn config(self) -> (r: LiteHrNetPoseConfig)
        ensures
            r.backbone.is_coco(
                match self {
                    ModelArg::LiteHrNet18 => seq![2usize, 4, 2],
                    ModelArg::LiteHrNet30 => seq![3usize, 8, 3],
                },
            ),
            r.num_joints == 17,
    {
        match self {
            ModelArg::LiteHrNet18 => LiteHrNetPoseConfig::litehrnet18_coco(),
            ModelArg::LiteHrNet30 => LiteHrNetPoseConfig::litehrnet30_coco(),
        }
    }
}

/// How the head resizes.
#[derive(Clone, Copy, Debug, PartialEq, Eq, Structural)]
pub enum HeadUpsampleArg {
    Bilinear,
    Nearest,
}

impl HeadUpsampleArg {
    pub fn mode(self) -> (r: HeadUpsampleMode)
        ensures
            r == match self {
                HeadUpsampleArg::Bilinear => HeadUpsampleMode::BilinearAligned,
                HeadUpsampleArg::Nearest => HeadUpsampleMode::Nearest,
            },
    {
        match self {
            HeadUpsampleArg::Bilinear => HeadUpsampleMode::BilinearAligned,
            HeadUpsampleArg::Nearest => HeadUpsampleMode::Nearest,
        }
    }
}

/// How the head resizes: as requested, or else by nearest neighbours on Metal and bilinearly
/// elsewhere.
pub fn resolve_head_upsample(backend: BackendArg, requested: Option<HeadUpsampleArg>) -> (r:
    HeadUpsampleMode)
    ensures
        r == match requested {
            Some(HeadUpsampleArg::Bilinear) => HeadUpsampleMode::BilinearAligned,
            Some(HeadUpsampleArg::Nearest) => HeadUpsampleMode::Nearest,
            None => if backend == BackendArg::Metal {
                HeadUpsampleMode::Nearest
            } else {
                HeadUpsampleMode::BilinearAligned
            },
        },
{
    match requested {
        Some(requested) => requested.mode(),
        None => if backend == BackendArg::Metal {
            HeadUpsampleMode::Nearest
        } else {
            HeadUpsampleMode::BilinearAligned
        },
    }
}

/// Number of batches to prepare ahead: as requested, or else two on Metal and none elsewhere.
pub fn resolve_prefetch_batches(backend: BackendArg, requested: Option<usize>) -> (r: usize)
    ensures
        r == match requested {
            Some(requested) => requested,
            None => if backend == BackendArg::Metal {
                2
            } else {
                0
            },
        },
{
    match requested {
        Some(requested) => requested,
        None => match backend {
            BackendArg::Flex => 0,
            BackendArg::Metal => 2,
        },
    }
}

/// Where the images of the validation samples lie: where it is said, or with the training images.
pub fn validation_images<T>(given: Option<T>, training: T) -> (r: T)
    ensures
        r == match given {
            Some(images) => images,
            None => training,
        },
{
    match given {
        Some(images) => images,
        None => training,
    }
}

/// A length within a limit.
pub fn limited_len(len: usize, limit: Option<usize>) -> (r: usize)
    ensures
        r == match limit {
            Some(limit) => if limit < len {
                limit
            } else {
                len
            },
            None => len,
        },
{
    match limit {
        Some(limit) => if limit < len {
            limit
        } else {
            len
        },
        None => len,
    }
}

/// How the head resizes, in a word.
pub fn format_head_upsample(mode: HeadUpsampleMode) -> (r: &'static str)
    ensures
        r@ == match mode {
            HeadUpsampleMode::BilinearAligned => "bilinear"@,
            HeadUpsampleMode::Nearest => "nearest"@,
        },
{
    match mode {
        HeadUpsampleMode::BilinearAligned => "bilinear",
        HeadUpsampleMode::Nearest => "nearest",
    }
}

/// The width that epoch numbers are filled up to: that of the last one, and at least three.
pub open spec fn epoch_width(total_epochs: nat) -> nat {
    if decimal(total_epochs).len() < 3 {
        3
    } else {
        decimal(total_epochs).len()
    }
}

/// An epoch among all epochs.
pub fn format_epoch(epoch: usize, total_epochs: usize) -> (r: String)
    ensures
        r@ == padded(epoch as nat, epoch_width(total_epochs as nat)) + "/"@ + decimal(
            total_epochs as nat,
        ),
        decimal(total_epochs as nat).len() < 3 ==> r@ == padded(epoch as nat, 3) + "/"@ + decimal(
            total_epochs as nat,
        ),
        decimal(total_epochs as nat).len() >= 3 ==> r@ == padded(
            epoch as nat,
            decimal(total_epochs as nat).len(),
        ) + "/"@ + decimal(total_epochs as nat),
{
    let total = decimal_text(total_epochs);
    let digits: usize = total.as_str().unicode_len();
    let width: usize = if digits < 3 { 3 } else { digits };
    let mut r = padded_text(epoch, width);
    r.append("/");
    r.append(total.as_str());
    r
}

/// Which query a search is made with.
#[derive(Clone, Copy, Debug, PartialEq, Eq, Structural)]
pub enum QuerySource {
    Image,
    Sample(usize),
}

/// Decides which query a search is made with: an image or a sample, and not both.
pub fn query_source(has_image: bool, sample: Option<usize>) -> (r: Result<QuerySource, String>)
    ensures
        has_image && sample is None ==> r == Ok::<QuerySource, String>(QuerySource::Image),
        !has_image && sample is Some ==> r == Ok::<QuerySource, String>(
            QuerySource::Sample(sample->0),
        ),
        has_image == sample is Some ==> r is Err && r->Err_0@
            == "provide exactly one of --image or --sample"@,
{
    match sample {
        None => if has_image {
            Ok(QuerySource::Image)
        } else {
            Err("provide exactly one of --image or --sample".to_owned())
        },
        Some(sample) => if has_image {
            Err("provide exactly one of --image or --sample".to_owned())
        } else {
            Ok(QuerySource::Sample(sample))
        },
    }
}

/// Checks that a sample is one of the pairs of a dataset.
pub fn ensure_sample(sample: usize, pairs: usize) -> (r: Result<(), RetrievalError>)
    ensures
        r is Ok == (sample < pairs),
        r is Err ==> r->Err_0.says(
            "sample index "@ + decimal(sample as nat) + " out of range for "@ + decimal(
                pairs as nat,
            ) + " pairs"@,
        ),
{
    if sample < pairs {
        return Ok(());
    }
    let mut words = "sample index ".to_owned();
    words.append(decimal_text(sample).as_str());
    words.append(" out of range for ");
    words.append(decimal_text(pairs).as_str());
    words.append(" pairs");
    invalid(words.as_str())
}

/// The height stands before the first small x, or the first capital where there is no small one,
/// and the width behind it; both have to be positive numbers. A text without either gives no size.
pub proof fn law_size_splits_at_the_first_x(height: Seq<char>, c: char, width: Seq<char>)
    requires
        c == 'x' || c == 'X',
        forall|i: int| 0 <= i < height.len() ==> #[trigger] height[i] != c && height[i] != 'x',
        c == 'X' ==> forall|i: int| 0 <= i < width.len() ==> #[trigger] width[i] != 'x',
    ensures
        ({
            let value = height + seq![c] + width;
            let at = size_separator(value);
            let h = number_of(height, 10, usize::MAX as nat);
            let w = number_of(width, 10, usize::MAX as nat);
            &&& size_fault(value) is None <==> h is Ok && w is Ok && h->Ok_0 > 0 && w->Ok_0 > 0
            &&& h is Ok ==> positive_number(value.take(at)) == h->Ok_0
            &&& w is Ok ==> positive_number(value.skip(at + 1)) == w->Ok_0
            &&& h == Ok::<nat, NumberError>(0) ==> size_fault(value) == Some(
                "height"@ + " must be greater than 0"@,
            )
            &&& h is Ok && h->Ok_0 > 0 && w == Ok::<nat, NumberError>(0) ==> size_fault(value)
                == Some("width"@ + " must be greater than 0"@)
        }),
        c == 'X' ==> size_fault(height) == Some("expected HEIGHTxWIDTH, for example 256x192"@),
{
    let value = height + seq![c] + width;
    let n = height.len() as int;
    assert(value[n] == c);
    lemma_next_of(value, 'x', 0);
    lemma_next_of(value, 'X', 0);
    lemma_next_of(height, 'x', 0);
    lemma_next_of(height, 'X', 0);
    let small = next_of(value, 'x', 0);
    if small < n {
        assert(value[small] == height[small]);
    }
    if c == 'X' {
        if n < small < value.len() {
            assert(value[small] == width[small - n - 1]);
        }
        let large = next_of(value, 'X', 0);
        if large < n {
            assert(value[large] == height[large]);
        }
    }
    assert(size_separator(value) == n);
    assert(value.take(n) =~= height);
    assert(value.skip(n + 1) =~= width);
}

} // verus!
