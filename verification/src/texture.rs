//! Texture resources and the loader of texture files.
use vstd::prelude::*;
use crate::resources::Resource;
use crate::text::{ascii_lower, file_extension, file_extension_of, is_ascii_text, lower_text, lowercase_of, path_extension, same_text};

verus! {

/// The pixel formats of a texture, as the wire format names them.
#[derive(Debug, Clone, Copy, PartialEq, Eq, Hash)]
pub enum TextureFormat {
    Unspecified,
    Rgba8,
    Rgb8,
    Rgba16f,
    Rgba32f,
    Dxt1,
    Dxt5,
    Bc7,
}

/// The format a texture's format name stands for (`Unspecified` for any
/// other name).
pub open spec fn format_of_name(name: Seq<char>) -> TextureFormat {
    if name == "RGBA8"@ {
        TextureFormat::Rgba8
    } else if name == "RGB8"@ {
        TextureFormat::Rgb8
    } else if name == "RGBA16F"@ {
        TextureFormat::Rgba16f
    } else if name == "RGBA32F"@ {
        TextureFormat::Rgba32f
    } else if name == "DXT1"@ {
        TextureFormat::Dxt1
    } else if name == "DXT5"@ {
        TextureFormat::Dxt5
    } else if name == "BC7"@ {
        TextureFormat::Bc7
    } else {
        TextureFormat::Unspecified
    }
}

/// The name a decoded texture gets for its format; an unspecified format
/// falls back to "RGBA8".
pub open spec fn name_of_format(f: TextureFormat) -> Seq<char> {
    match f {
        TextureFormat::Rgba8 => "RGBA8"@,
        TextureFormat::Rgb8 => "RGB8"@,
        TextureFormat::Rgba16f => "RGBA16F"@,
        TextureFormat::Rgba32f => "RGBA32F"@,
        TextureFormat::Dxt1 => "DXT1"@,
        TextureFormat::Dxt5 => "DXT5"@,
        TextureFormat::Bc7 => "BC7"@,
        TextureFormat::Unspecified => "RGBA8"@,
    }
}

impl TextureFormat {
    /// The format a name stands for.
    pub fn from_name(name: &str) -> (f: TextureFormat)
        ensures
            f == format_of_name(name@),
    {
        if same_text(name, "RGBA8") {
            TextureFormat::Rgba8
        } else if same_text(name, "RGB8") {
            TextureFormat::Rgb8
        } else if same_text(name, "RGBA16F") {
            TextureFormat::Rgba16f
        } else if same_text(name, "RGBA32F") {
            TextureFormat::Rgba32f
        } else if same_text(name, "DXT1") {
            TextureFormat::Dxt1
        } else if same_text(name, "DXT5") {
            TextureFormat::Dxt5
        } else if same_text(name, "BC7") {
            TextureFormat::Bc7
        } else {
            TextureFormat::Unspecified
        }
    }

    /// The name a decoded texture gets for this format.
    pub fn name(self) -> (s: &'static str)
        ensures
            s@ == name_of_format(self),
    {
        match self {
            TextureFormat::Rgba8 => "RGBA8",
            TextureFormat::Rgb8 => "RGB8",
            TextureFormat::Rgba16f => "RGBA16F",
            TextureFormat::Rgba32f => "RGBA32F",
            TextureFormat::Dxt1 => "DXT1",
            TextureFormat::Dxt5 => "DXT5",
            TextureFormat::Bc7 => "BC7",
            TextureFormat::Unspecified => "RGBA8",
        }
    }
}

/// A texture: its size in pixels, its pixel data and its format's name.
#[derive(Debug, Clone)]
pub struct TextureResource {
    pub width: u32,
    pub height: u32,
    pub data: Vec<u8>,
    pub format: String,
}

impl Resource for TextureResource {
    open spec fn reports_type(&self, k: Seq<char>) -> bool {
        k == "Texture"@
    }

    /// The pixel data and the structure itself, saturated at `usize::MAX`.
    open spec fn size_is(&self, n: usize) -> bool {
        n == if self.data@.len() + vstd::layout::size_of::<TextureResource>() <= usize::MAX {
            self.data@.len() + vstd::layout::size_of::<TextureResource>()
        } else {
            usize::MAX as nat
        }
    }

    fn resource_type(&self) -> (k: &'static str)
        ensures
            k@ == "Texture"@,
    {
        "Texture"
    }

    /// The pixel data and the structure itself, saturated at `usize::MAX`.
    fn size(&self) -> (n: usize)
        ensures
            n == if self.data@.len() + vstd::layout::size_of::<TextureResource>() <= usize::MAX {
                self.data@.len() + vstd::layout::size_of::<TextureResource>()
            } else {
                usize::MAX as nat
            },
    {
        self.byte_size()
    }
}

impl TextureResource {
    /// The memory the texture takes: its pixel data and the structure itself.
    pub fn byte_size(&self) -> (n: usize)
        ensures
            n == if self.data@.len() + vstd::layout::size_of::<TextureResource>() <= usize::MAX {
                self.data@.len() + vstd::layout::size_of::<TextureResource>()
            } else {
                usize::MAX as nat
            },
    {
        self.data.len().saturating_add(core::mem::size_of::<TextureResource>())
    }
}

/// One mip level of a texture as the wire message carries it.
#[derive(Debug, Clone)]
pub struct TextureLevel {
    pub level: u32,
    pub width: u32,
    pub height: u32,
    pub data: Vec<u8>,
}

/// The flags of a texture on the wire.
#[derive(Debug, Clone, Copy, PartialEq, Eq)]
pub struct TextureWireFlags {
    pub is_srgb: bool,
    pub generate_mipmaps: bool,
    pub is_cubemap: bool,
    pub is_array: bool,
}

/// A texture as the wire message carries it.
#[derive(Debug, Clone)]
pub struct TextureMessage {
    pub width: u32,
    pub height: u32,
    pub format: TextureFormat,
    pub mip_levels: u32,
    pub levels: Vec<TextureLevel>,
    pub flags: Option<TextureWireFlags>,
}

/// `msg` is the wire message of `t`: one level, level 0, of the texture's size
/// and pixel data, the format its name stands for, and no flag set.
pub open spec fn encodes(msg: TextureMessage, t: TextureResource) -> bool {
    &&& msg.width == t.width
    &&& msg.height == t.height
    &&& msg.format == format_of_name(t.format@)
    &&& msg.mip_levels == 1
    &&& msg.levels@.len() == 1
    &&& msg.levels@[0].level == 0
    &&& msg.levels@[0].width == t.width
    &&& msg.levels@[0].height == t.height
    &&& msg.levels@[0].data@ == t.data@
    &&& msg.flags == Some(
        TextureWireFlags { is_srgb: false, generate_mipmaps: false, is_cubemap: false, is_array: false },
    )
}

/// `t` is the texture that the wire message `msg` decodes to: its size, the
/// pixel data of its first level (none without a level) and its format's name.
pub open spec fn decodes(t: TextureResource, msg: TextureMessage) -> bool {
    &&& t.width == msg.width
    &&& t.height == msg.height
    &&& t.format@ == name_of_format(msg.format)
    &&& t.data@ == if msg.levels@.len() > 0 {
        msg.levels@[0].data@
    } else {
        Seq::<u8>::empty()
    }
}

/// A copy of a run of bytes.
fn copy_bytes(v: &Vec<u8>) -> (c: Vec<u8>)
    ensures
        c@ == v@,
{
    let mut c: Vec<u8> = Vec::new();
    let mut i: usize = 0;
    while i < v.len()
        invariant
            i <= v@.len(),
            c@ == v@.subrange(0, i as int),
        decreases v@.len() - i,
    {
        c.push(v[i]);
        i = i + 1;
        assert(c@ =~= v@.subrange(0, i as int));
    }
    assert(v@.subrange(0, v@.len() as int) =~= v@);
    c
}

impl TextureResource {
    /// The wire message of the texture.
    pub fn to_message(&self) -> (msg: TextureMessage)
        ensures
            encodes(msg, *self),
    {
        let level = TextureLevel { level: 0, width: self.width, height: self.height, data: copy_bytes(&self.data) };
        let mut levels: Vec<TextureLevel> = Vec::new();
        levels.push(level);
        TextureMessage {
            width: self.width,
            height: self.height,
            format: TextureFormat::from_name(self.format.as_str()),
            mip_levels: 1,
            levels,
            flags: Some(TextureWireFlags { is_srgb: false, generate_mipmaps: false, is_cubemap: false, is_array: false }),
        }
    }

    /// The texture a wire message decodes to.
    pub fn from_message(msg: &TextureMessage) -> (t: TextureResource)
        ensures
            decodes(t, *msg),
    {
        let data = if msg.levels.len() > 0 {
            copy_bytes(&msg.levels[0].data)
        } else {
            Vec::new()
        };
        TextureResource { width: msg.width, height: msg.height, data, format: String::from_str(msg.format.name()) }
    }
}

/// A texture sent as its wire message comes back with its size and pixel data,
/// and with its format's name where that name is one of the wire format's;
/// any other name comes back as "RGBA8".
pub proof fn lemma_texture_message_roundtrip(t: TextureResource, msg: TextureMessage, back: TextureResource)
    requires
        encodes(msg, t),
        decodes(back, msg),
    ensures
        back.width == t.width,
        back.height == t.height,
        back.data@ == t.data@,
        back.format@ == if t.format@ == "RGBA8"@ || t.format@ == "RGB8"@ || t.format@ == "RGBA16F"@
            || t.format@ == "RGBA32F"@ || t.format@ == "DXT1"@ || t.format@ == "DXT5"@ || t.format@ == "BC7"@ {
            t.format@
        } else {
            "RGBA8"@
        },
{
    lemma_format_name_roundtrip(t.format@);
}

/// Loads textures from image files.
pub struct TextureLoader;

/// The file extensions of the images a texture loader reads.
pub open spec fn is_image_extension(ext: Seq<char>) -> bool {
    ext == "png"@ || ext == "jpg"@ || ext == "jpeg"@ || ext == "bmp"@
}

impl TextureLoader {
    /// Whether a lower-cased extension names an image file a texture is read from.
    pub fn is_texture_extension(ext: &str) -> (b: bool)
        ensures
            b == is_image_extension(ext@),
    {
        same_text(ext, "png") || same_text(ext, "jpg") || same_text(ext, "jpeg") || same_text(ext, "bmp")
    }

    /// Whether the file at a path is loaded as a texture: its extension, in
    /// lower case, is png, jpg, jpeg or bmp.
    pub fn can_load(&self, path: &str) -> (b: bool)
        ensures
            b == match path_extension(path@) {
                Some(e) => is_image_extension(lowercase_of(e)),
                None => false,
            },
            path_extension(path@) == file_extension_of(path@),
            path_extension(path@) is Some && is_ascii_text(path_extension(path@)->Some_0) ==> lowercase_of(
                path_extension(path@)->Some_0,
            ) == ascii_lower(path_extension(path@)->Some_0),
    {
        match file_extension(path) {
            Some(ext) => {
                let lower = lower_text(ext.as_str());
                Self::is_texture_extension(lower.as_str())
            },
            None => false,
        }
    }

    /// The texture made from the bytes of an image file: 256 by 256 pixels in
    /// RGBA8, the bytes kept as they are.
    pub fn texture_from_bytes(&self, data: Vec<u8>) -> (t: TextureResource)
        ensures
            t.width == 256,
            t.height == 256,
            t.data@ == data@,
            t.format@ == "RGBA8"@,
    {
        TextureResource { width: 256, height: 256, data, format: String::from_str("RGBA8") }
    }
}

/// Decoding gives back the format name a texture was encoded with, for each
/// name of the wire format; any other name comes back as "RGBA8".
pub proof fn lemma_format_name_roundtrip(name: Seq<char>)
    ensures
        (name == "RGBA8"@ || name == "RGB8"@ || name == "RGBA16F"@ || name == "RGBA32F"@ || name == "DXT1"@
            || name == "DXT5"@ || name == "BC7"@) ==> name_of_format(format_of_name(name)) == name,
        format_of_name(name) is Unspecified ==> name_of_format(format_of_name(name)) == "RGBA8"@,
{
}

} // verus!
