//! Images as they are handed to callers.

use vstd::prelude::*;

use crate::codec::{bytes_or_text, inflate, zlib_decoded};
use crate::encode::{
    encode_image_to_png, has_png_header, is_encodable, is_filter, png_fits, png_of_image,
    png_size_fits,
};
use crate::images::{ImageInfo, ImageView};
use crate::text::{decimal, opt_text, push_decimal};

verus! {

/// An image out of a document.
#[derive(Clone, Debug)]
pub struct PdfImage {
    pub width: u32,
    pub height: u32,
    pub bits_per_component: u8,
    pub color_space: String,
    pub page: usize,
    pub filter: Option<String>,
    pub data: Vec<u8>,
}

impl View for PdfImage {
    type V = ImageView;

    open spec fn view(&self) -> ImageView {
        ImageView {
            width: self.width,
            height: self.height,
            bits_per_component: self.bits_per_component,
            color_space: self.color_space@,
            filter: opt_text(self.filter),
            data: self.data@,
            page: self.page as nat,
        }
    }
}

/// What a list of images holds.
pub open spec fn pdf_image_views(images: Seq<PdfImage>) -> Seq<ImageView> {
    images.map_values(|image: PdfImage| image@)
}

/// Whether the data of an image with this filter is a file of its own.
pub open spec fn is_image_file(filter: Option<Seq<char>>) -> bool {
    filter == Some("/DCTDecode"@) || filter == Some("/JPXDecode"@)
}

/// The format of an image with this filter.
pub open spec fn format_of(filter: Option<Seq<char>>) -> Seq<char> {
    if filter == Some("/DCTDecode"@) {
        "jpeg"@
    } else if filter == Some("/JPXDecode"@) {
        "jp2"@
    } else {
        "raw"@
    }
}

/// The bytes of an image whose data decompresses to `decoded`. Data that did not
/// go through the `FlateDecode` filter is not decompressed, and neither is data
/// that cannot be.
pub open spec fn raw_data(image: ImageView, decoded: Result<Seq<u8>, Seq<char>>) -> Seq<u8> {
    if image.filter == Some("/FlateDecode"@) && decoded is Ok {
        decoded->Ok_0
    } else {
        image.data
    }
}

/// A PNG file for an image, or the message of the error. An image that is a file
/// of its own is left as it is.
pub open spec fn png_or_file(image: ImageView) -> Result<Seq<u8>, Seq<char>> {
    if is_image_file(image.filter) {
        Ok(image.data)
    } else {
        png_of_image(image)
    }
}

/// The text that describes an image.
pub open spec fn image_text(image: ImageView) -> Seq<char> {
    "PdfImage("@ + decimal(image.width as nat) + "x"@ + decimal(image.height as nat) + ", "@
        + image.color_space + ", page="@ + decimal(image.page) + ", format="@ + format_of(
        image.filter,
    ) + ")"@
}

impl PdfImage {
    /// The image with the given stored form.
    pub fn from_info(info: ImageInfo) -> (image: PdfImage)
        ensures
            image@ == info@,
            image.width == info.width,
            image.height == info.height,
            image.bits_per_component == info.bits_per_component,
            image.color_space@ == info.color_space@,
            opt_text(image.filter) == opt_text(info.filter),
            image.data@ == info.data@,
            image.page == info.page,
    {
        PdfImage {
            width: info.width,
            height: info.height,
            bits_per_component: info.bits_per_component,
            color_space: info.color_space,
            page: info.page,
            filter: info.filter,
            data: info.data,
        }
    }

    /// The stored form of the image.
    pub fn to_info(&self) -> (info: ImageInfo)
        ensures
            info@ == self@,
            info.width == self.width,
            info.height == self.height,
            info.bits_per_component == self.bits_per_component,
            info.color_space@ == self.color_space@,
            opt_text(info.filter) == opt_text(self.filter),
            info.data@ == self.data@,
            info.page == self.page,
    {
        let data = self.data.clone();
        assert(data@ =~= self.data@);
        ImageInfo {
            width: self.width,
            height: self.height,
            bits_per_component: self.bits_per_component,
            color_space: self.color_space.clone(),
            filter: match &self.filter {
                Some(name) => Some(name.clone()),
                None => None,
            },
            data,
            page: self.page,
        }
    }

    /// Whether the data is a JPEG or JPEG 2000 file.
    pub fn is_file(&self) -> (yes: bool)
        ensures
            yes == is_image_file(self@.filter),
            yes == (opt_text(self.filter) == Some("/DCTDecode"@) || opt_text(self.filter) == Some(
                "/JPXDecode"@,
            )),
    {
        is_filter(&self.filter, "/DCTDecode") || is_filter(&self.filter, "/JPXDecode")
    }

    /// The bytes of the image, given what its data decompresses to.
    pub fn raw_bytes_from(&self, decoded: Result<Vec<u8>, String>) -> (raw: Vec<u8>)
        ensures
            raw@ == raw_data(self@, bytes_or_text(decoded)),
            opt_text(self.filter) == Some("/FlateDecode"@) ==> match decoded {
                Ok(bytes) => raw@ == bytes@,
                Err(_) => raw@ == self.data@,
            },
            opt_text(self.filter) != Some("/FlateDecode"@) ==> raw@ == self.data@,
    {
        if is_filter(&self.filter, "/FlateDecode") {
            if let Ok(bytes) = decoded {
                return bytes;
            }
        }
        let raw = self.data.clone();
        assert(raw@ =~= self.data@);
        raw
    }

    /// The bytes of the image: the JPEG or JPEG 2000 file, or the decompressed
    /// pixels. Data that cannot be decompressed is given as it is.
    pub fn raw_bytes(&self) -> (raw: Vec<u8>)
        ensures
            raw@ == raw_data(self@, zlib_decoded(self@.data)),
            opt_text(self.filter) == Some("/FlateDecode"@) ==> match zlib_decoded(self.data@) {
                Ok(bytes) => raw@ == bytes,
                Err(_) => raw@ == self.data@,
            },
            opt_text(self.filter) != Some("/FlateDecode"@) ==> raw@ == self.data@,
    {
        if is_filter(&self.filter, "/FlateDecode") {
            self.raw_bytes_from(inflate(&self.data))
        } else {
            let raw = self.data.clone();
            assert(raw@ =~= self.data@);
            raw
        }
    }

    /// The image as a PNG file, or a message that says what was wrong with it. A
    /// JPEG or JPEG 2000 file is given as it is.
    pub fn to_png(&self) -> (png: Result<Vec<u8>, String>)
        requires
            is_image_file(self@.filter) || is_encodable(self@),
        ensures
            bytes_or_text(png) == png_or_file(self@),
            !is_image_file(self@.filter) ==> (png matches Ok(file) ==> has_png_header(
                self@,
                file@,
            )),
            opt_text(self.filter) == Some("/DCTDecode"@) || opt_text(self.filter) == Some(
                "/JPXDecode"@,
            ) ==> (png matches Ok(file) && file@ == self.data@),
            opt_text(self.filter) != Some("/DCTDecode"@) && opt_text(self.filter) != Some(
                "/JPXDecode"@,
            ) ==> bytes_or_text(png) == png_of_image(self@),
    {
        if self.is_file() {
            let data = self.data.clone();
            assert(data@ =~= self.data@);
            Ok(data)
        } else {
            encode_image_to_png(&self.to_info())
        }
    }

    /// The image as `to_png` gives it, or nothing where the size of its PNG file
    /// cannot be computed on this machine.
    pub fn to_png_if_it_fits(&self) -> (png: Option<Result<Vec<u8>, String>>)
        ensures
            match png {
                Some(result) => (is_image_file(self@.filter) || is_encodable(self@))
                    && bytes_or_text(result) == png_or_file(self@),
                None => !is_image_file(self@.filter) && !is_encodable(self@),
            },
    {
        if self.is_file() || self.png_fits() {
            return Some(self.to_png());
        }
        if is_filter(&self.filter, "/FlateDecode") {
            if let Err(_) = inflate(&self.data) {
                return Some(self.to_png());
            }
        }
        None
    }

    /// Whether the size of the image's PNG file can be computed on this machine.
    pub fn png_fits(&self) -> (fits: bool)
        ensures
            fits == png_size_fits(self@),
    {
        png_fits(self.width, self.height, self.bits_per_component, self.color_space.as_str())
    }

    /// The format of the data: `jpeg`, `jp2` or `raw`.
    pub fn format(&self) -> (name: &str)
        ensures
            name@ == format_of(self@.filter),
            opt_text(self.filter) == Some("/DCTDecode"@) ==> name@ == "jpeg"@,
            opt_text(self.filter) == Some("/JPXDecode"@) ==> name@ == "jp2"@,
            opt_text(self.filter) != Some("/DCTDecode"@) && opt_text(self.filter) != Some(
                "/JPXDecode"@,
            ) ==> name@ == "raw"@,
    {
        proof {
            lemma_formats();
        }
        if is_filter(&self.filter, "/DCTDecode") {
            "jpeg"
        } else if is_filter(&self.filter, "/JPXDecode") {
            "jp2"
        } else {
            "raw"
        }
    }

    /// A short description of the image.
    pub fn __repr__(&self) -> (text: String)
        ensures
            text@ == image_text(self@),
            text@ == "PdfImage("@ + decimal(self.width as nat) + "x"@ + decimal(
                self.height as nat,
            ) + ", "@ + self.color_space@ + ", page="@ + decimal(self.page as nat) + ", format="@
                + format_of(opt_text(self.filter)) + ")"@,
    {
        let mut text = "PdfImage(".to_owned();
        push_decimal(&mut text, self.width as u64);
        text.append("x");
        push_decimal(&mut text, self.height as u64);
        text.append(", ");
        text.append(self.color_space.as_str());
        text.append(", page=");
        push_decimal(&mut text, self.page as u64);
        text.append(", format=");
        text.append(self.format());
        text.append(")");
        text
    }
}

/// A JPEG or JPEG 2000 file is handed out as it is, whether as raw bytes or in
/// the place of a PNG file.
pub proof fn lemma_image_file_unchanged(image: ImageView, decoded: Result<Seq<u8>, Seq<char>>)
    requires
        is_image_file(image.filter),
    ensures
        raw_data(image, decoded) == image.data,
        png_or_file(image) == Ok::<Seq<u8>, Seq<char>>(image.data),
{
    reveal_strlit("/DCTDecode");
    reveal_strlit("/JPXDecode");
    reveal_strlit("/FlateDecode");
    assert("/DCTDecode"@.len() == 10 && "/JPXDecode"@.len() == 10 && "/FlateDecode"@.len() == 12);
}

/// The format is `raw` exactly for data that is no file of its own.
pub proof fn lemma_raw_format(filter: Option<Seq<char>>)
    ensures
        format_of(filter) == "raw"@ <==> !is_image_file(filter),
{
    reveal_strlit("jpeg");
    reveal_strlit("jp2");
    reveal_strlit("raw");
    assert("jpeg"@.len() == 4 && "jp2"@[0] == 'j' && "raw"@.len() == 3 && "raw"@[0] == 'r');
}

/// What is read of an image is what its fields hold.
pub proof fn lemma_image_view(image: PdfImage)
    ensures
        image@.width == image.width,
        image@.height == image.height,
        image@.bits_per_component == image.bits_per_component,
        image@.color_space == image.color_space@,
        image@.filter == opt_text(image.filter),
        image@.data == image.data@,
        image@.page == image.page,
{
}

/// The raw bytes of an image that went through `FlateDecode` are what its data
/// decompresses to, and otherwise its data. Nothing else of the image matters.
pub proof fn lemma_raw_bytes(image: ImageView, decoded: Result<Seq<u8>, Seq<char>>, pixels: Seq<u8>)
    ensures
        image.filter == Some("/FlateDecode"@) ==> raw_data(image, Ok(pixels)) == pixels,
        image.filter != Some("/FlateDecode"@) ==> raw_data(image, decoded) == image.data,
        decoded is Err ==> raw_data(image, decoded) == image.data,
{
}

/// The format of each kind of data.
pub proof fn lemma_formats()
    ensures
        format_of(Some("/DCTDecode"@)) == "jpeg"@,
        format_of(Some("/JPXDecode"@)) == "jp2"@,
        forall|filter: Option<Seq<char>>|
            filter != Some("/DCTDecode"@) && filter != Some("/JPXDecode"@) ==> #[trigger] format_of(
                filter,
            ) == "raw"@,
{
    reveal_strlit("/DCTDecode");
    reveal_strlit("/JPXDecode");
    assert("/DCTDecode"@[1] == 'D' && "/JPXDecode"@[1] == 'J');
}

} // verus!
