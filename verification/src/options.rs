use vstd::prelude::*;

verus! {

broadcast use vstd::string::to_string_from_display_ensures_for_str;

/// What the program is asked to do.
#[derive(Copy, Clone, PartialEq, Eq, Structural, Debug)]
pub enum AppMode {
    Inject,
    Extract,
}

/// How payload bytes are laid into a frame's content cells: three bytes per
/// cell over the color channels, or one bit per black-and-white cell.
#[derive(Copy, Clone, PartialEq, Eq, Structural, Debug)]
pub enum AlgoFrame {
    RGB,
    BW,
}

#[derive(Clone)]
pub struct InjectOption {
    pub message: String,
    pub password: Option<String>,
    pub input_image_path: String,
    pub output_image_path: String,
}

/// CLI arguments, already parsed into plain values by the surrounding layer.
pub struct CliData {
    /// The source of the file to inject into the video
    pub input_file_path: Option<String>,
    pub fps: Option<u8>,
    /// Number of pixels (width and height) that carry one value
    pub size: Option<u8>,
    pub height: Option<u16>,
    pub width: Option<u16>,
    /// When extracting, where to save the file
    pub output_video_path: Option<String>,
    pub mode: Option<AppMode>,
    pub algo: Option<AlgoFrame>,
}

/// Required options for the injection of the file into a video
#[derive(Clone)]
pub struct InjectOptions {
    pub file_path: String,
    pub output_video_file: String,
    pub fps: u8,
    pub width: u16,
    pub height: u16,
    pub size: u8,
    pub algo: AlgoFrame,
    pub show_progress: bool,
}

#[derive(Clone)]
pub struct ExtractOptions {
    pub video_file_path: String,
    pub extracted_file_path: String,
    pub fps: u8,
    pub width: u16,
    pub height: u16,
    pub size: u8,
    pub algo: AlgoFrame,
    pub show_progress: bool,
}

#[derive(Clone)]
pub enum VideoOptions {
    InjectInVideo(InjectOptions),
    ExtractFromVideo(ExtractOptions),
}

/// Turn the command line values into the option structure of the task asked,
/// filling in the default of every value that was not given.
pub fn extract_options(args: CliData) -> (options: Result<VideoOptions, String>)
    requires
        args.mode is Some,
        args.mode == Some(AppMode::Inject) ==> args.input_file_path is Some,
    ensures
        options is Ok,
        args.mode == Some(AppMode::Inject) ==> ({
            &&& options->Ok_0 is InjectInVideo
            &&& {
                let io = options->Ok_0->InjectInVideo_0;
                &&& io.file_path == args.input_file_path->0
                &&& io.output_video_file@ == (if args.output_video_path is Some {
                    args.output_video_path->0@
                } else {
                    "video.mp4"@
                })
                &&& io.fps == (if args.fps is Some {
                    args.fps->0
                } else {
                    30u8
                })
                &&& io.height == (if args.height is Some {
                    args.height->0
                } else {
                    2160u16
                })
                &&& io.width == (if args.width is Some {
                    args.width->0
                } else {
                    3840u16
                })
                &&& io.size == (if args.size is Some {
                    args.size->0
                } else {
                    1u8
                })
                &&& io.algo == (if args.algo is Some {
                    args.algo->0
                } else {
                    AlgoFrame::RGB
                })
                &&& io.show_progress == false
            }
        }),
        args.mode == Some(AppMode::Extract) ==> ({
            &&& options->Ok_0 is ExtractFromVideo
            &&& {
                let eo = options->Ok_0->ExtractFromVideo_0;
                &&& eo.video_file_path@ == (if args.input_file_path is Some {
                    args.input_file_path->0@
                } else {
                    "video.mp4"@
                })
                &&& eo.extracted_file_path@ == (if args.output_video_path is Some {
                    args.output_video_path->0@
                } else {
                    "mydata.txt"@
                })
                &&& eo.fps == (if args.fps is Some {
                    args.fps->0
                } else {
                    30u8
                })
                &&& eo.height == (if args.height is Some {
                    args.height->0
                } else {
                    2160u16
                })
                &&& eo.width == (if args.width is Some {
                    args.width->0
                } else {
                    3840u16
                })
                &&& eo.size == (if args.size is Some {
                    args.size->0
                } else {
                    1u8
                })
                &&& eo.algo == (if args.algo is Some {
                    args.algo->0
                } else {
                    AlgoFrame::RGB
                })
                &&& eo.show_progress == false
            }
        }),
{
    match args.mode {
        Some(AppMode::Inject) => {
            let file_path = match args.input_file_path {
                Some(p) => p,
                None => vstd::pervasive::unreached(),
            };
            Ok(
                VideoOptions::InjectInVideo(
                    InjectOptions {
                        file_path,
                        output_video_file: match args.output_video_path {
                            Some(p) => p,
                            None => "video.mp4".to_string(),
                        },
                        size: match args.size {
                            Some(s) => s,
                            None => 1,
                        },
                        fps: match args.fps {
                            Some(f) => f,
                            None => 30,
                        },
                        height: match args.height {
                            Some(h) => h,
                            None => 2160,
                        },
                        width: match args.width {
                            Some(w) => w,
                            None => 3840,
                        },
                        algo: match args.algo {
                            Some(a) => a,
                            None => AlgoFrame::RGB,
                        },
                        show_progress: false,
                    },
                ),
            )
        },
        Some(AppMode::Extract) => Ok(
            VideoOptions::ExtractFromVideo(
                ExtractOptions {
                    video_file_path: match args.input_file_path {
                        Some(p) => p,
                        None => "video.mp4".to_string(),
                    },
                    extracted_file_path: match args.output_video_path {
                        Some(p) => p,
                        None => "mydata.txt".to_string(),
                    },
                    size: match args.size {
                        Some(s) => s,
                        None => 1,
                    },
                    fps: match args.fps {
                        Some(f) => f,
                        None => 30,
                    },
                    height: match args.height {
                        Some(h) => h,
                        None => 2160,
                    },
                    width: match args.width {
                        Some(w) => w,
                        None => 3840,
                    },
                    algo: match args.algo {
                        Some(a) => a,
                        None => AlgoFrame::RGB,
                    },
                    show_progress: false,
                },
            ),
        ),
        None => vstd::pervasive::unreached(),
    }
}

} // verus!
