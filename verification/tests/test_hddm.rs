use hddm::header::HddmModel;
use hddm::{
    ChildPlan, Compression, ElementPlan, ElementReader, FormatError, HddmError, HddmFile,
    HddmPrimitiveRead, HddmPrimitiveWrite, HddmRead, HddmReadPlanned, HddmResult, HddmSchema,
    HddmWrite, HddmWriter,
};

const MODEL: &str = r#"<?xml version="1.0" encoding="UTF-8"?>
<HDDM class="x">
  <student name="string">
    <enrolled semester="int" year="int" maxOccurs="unbounded">
      <course credits="int" title="string" maxOccurs="unbounded">
        <result minOccurs="0" Pass="boolean" grade="string" />
      </course>
    </enrolled>
  </student>
</HDDM>
"#;

fn parsed(text: &str) -> &'static HddmModel {
    let (model, _) = hddm::header::read_hddm_header_from_bytes(text.as_bytes()).unwrap();
    Box::leak(Box::new(model))
}

fn unexpected(index: usize) -> HddmError {
    HddmError::FormatError(FormatError::UnexpectedChildIndex(index))
}

fn skip_only(r: &mut ElementReader, plan: &ElementPlan) -> HddmResult<()> {
    for child in &plan.children {
        match child {
            ChildPlan::Skip { .. } => r.skip_element()?,
            ChildPlan::Decode { generated_index, .. } => return Err(unexpected(*generated_index)),
        }
    }
    Ok(())
}

#[derive(Debug, PartialEq)]
pub struct ResultElement {
    pub pass: bool,
    pub grade: String,
}

impl HddmWrite for ResultElement {
    fn write_contents(&self, w: &mut HddmWriter) -> HddmResult<()> {
        HddmPrimitiveWrite::write_primitive(&self.pass, w)?;
        HddmPrimitiveWrite::write_primitive(&self.grade, w)?;
        Ok(())
    }
}

impl HddmRead for ResultElement {
    fn read_contents(r: &mut ElementReader) -> HddmResult<Self> {
        Ok(Self {
            pass: HddmPrimitiveRead::read_primitive(r)?,
            grade: HddmPrimitiveRead::read_primitive(r)?,
        })
    }
}

impl HddmReadPlanned for ResultElement {
    fn read_contents_planned(r: &mut ElementReader, plan: &ElementPlan) -> HddmResult<Self> {
        let pass = HddmPrimitiveRead::read_primitive(r)?;
        let grade = HddmPrimitiveRead::read_primitive(r)?;
        skip_only(r, plan)?;
        Ok(Self { pass, grade })
    }
}

#[derive(Debug, PartialEq)]
pub struct Course {
    pub credits: i32,
    pub title: String,
    pub result: Option<ResultElement>,
}

impl HddmWrite for Course {
    fn write_contents(&self, w: &mut HddmWriter) -> HddmResult<()> {
        HddmPrimitiveWrite::write_primitive(&self.credits, w)?;
        HddmPrimitiveWrite::write_primitive(&self.title, w)?;
        w.write_link(&self.result)?;
        Ok(())
    }
}

impl HddmRead for Course {
    fn read_contents(r: &mut ElementReader) -> HddmResult<Self> {
        Ok(Self {
            credits: HddmPrimitiveRead::read_primitive(r)?,
            title: HddmPrimitiveRead::read_primitive(r)?,
            result: r.read_link()?,
        })
    }
}

impl HddmReadPlanned for Course {
    fn read_contents_planned(r: &mut ElementReader, plan: &ElementPlan) -> HddmResult<Self> {
        let credits = HddmPrimitiveRead::read_primitive(r)?;
        let title = HddmPrimitiveRead::read_primitive(r)?;
        let mut result = None;
        for child in &plan.children {
            match child {
                ChildPlan::Decode { generated_index: 0, plan, .. } => {
                    result = r.read_link_planned(plan)?;
                }
                ChildPlan::Skip { .. } => r.skip_element()?,
                ChildPlan::Decode { generated_index, .. } => {
                    return Err(unexpected(*generated_index))
                }
            }
        }
        Ok(Self { credits, title, result })
    }
}

#[derive(Debug, PartialEq)]
pub struct Enrolled {
    pub semester: i32,
    pub year: i32,
    pub courses: Vec<Course>,
}

impl HddmWrite for Enrolled {
    fn write_contents(&self, w: &mut HddmWriter) -> HddmResult<()> {
        HddmPrimitiveWrite::write_primitive(&self.semester, w)?;
        HddmPrimitiveWrite::write_primitive(&self.year, w)?;
        w.write_list(&self.courses)?;
        Ok(())
    }
}

impl HddmRead for Enrolled {
    fn read_contents(r: &mut ElementReader) -> HddmResult<Self> {
        Ok(Self {
            semester: HddmPrimitiveRead::read_primitive(r)?,
            year: HddmPrimitiveRead::read_primitive(r)?,
            courses: r.read_list()?,
        })
    }
}

impl HddmReadPlanned for Enrolled {
    fn read_contents_planned(r: &mut ElementReader, plan: &ElementPlan) -> HddmResult<Self> {
        let semester = HddmPrimitiveRead::read_primitive(r)?;
        let year = HddmPrimitiveRead::read_primitive(r)?;
        let mut courses = Vec::new();
        for child in &plan.children {
            match child {
                ChildPlan::Decode { generated_index: 0, plan, .. } => {
                    courses = r.read_list_planned(plan)?;
                }
                ChildPlan::Skip { .. } => r.skip_element()?,
                ChildPlan::Decode { generated_index, .. } => {
                    return Err(unexpected(*generated_index))
                }
            }
        }
        Ok(Self { semester, year, courses })
    }
}

#[derive(Debug, PartialEq)]
pub struct Student {
    pub name: String,
    pub enrolled: Vec<Enrolled>,
}

impl HddmWrite for Student {
    fn write_contents(&self, w: &mut HddmWriter) -> HddmResult<()> {
        HddmPrimitiveWrite::write_primitive(&self.name, w)?;
        w.write_list(&self.enrolled)?;
        Ok(())
    }
}

impl HddmRead for Student {
    fn read_contents(r: &mut ElementReader) -> HddmResult<Self> {
        Ok(Self { name: HddmPrimitiveRead::read_primitive(r)?, enrolled: r.read_list()? })
    }
}

impl HddmReadPlanned for Student {
    fn read_contents_planned(r: &mut ElementReader, plan: &ElementPlan) -> HddmResult<Self> {
        let name = HddmPrimitiveRead::read_primitive(r)?;
        let mut enrolled = Vec::new();
        for child in &plan.children {
            match child {
                ChildPlan::Decode { generated_index: 0, plan, .. } => {
                    enrolled = r.read_list_planned(plan)?;
                }
                ChildPlan::Skip { .. } => r.skip_element()?,
                ChildPlan::Decode { generated_index, .. } => {
                    return Err(unexpected(*generated_index))
                }
            }
        }
        Ok(Self { name, enrolled })
    }
}

#[derive(Debug, PartialEq)]
pub struct Hddm {
    pub student: Option<Student>,
}

impl HddmWrite for Hddm {
    fn write_contents(&self, w: &mut HddmWriter) -> HddmResult<()> {
        w.write_link(&self.student)?;
        Ok(())
    }
}

impl HddmRead for Hddm {
    fn read_contents(r: &mut ElementReader) -> HddmResult<Self> {
        Ok(Self { student: r.read_link()? })
    }
}

impl HddmReadPlanned for Hddm {
    fn read_contents_planned(r: &mut ElementReader, plan: &ElementPlan) -> HddmResult<Self> {
        let mut student = None;
        for child in &plan.children {
            match child {
                ChildPlan::Decode { generated_index: 0, plan, .. } => {
                    student = r.read_link_planned(plan)?;
                }
                ChildPlan::Skip { .. } => r.skip_element()?,
                ChildPlan::Decode { generated_index, .. } => {
                    return Err(unexpected(*generated_index))
                }
            }
        }
        Ok(Self { student })
    }
}

impl HddmSchema for Hddm {
    fn model_text() -> &'static str {
        MODEL
    }
    fn hddm_class() -> &'static str {
        "x"
    }
    fn model() -> &'static HddmModel {
        parsed(MODEL)
    }
}

pub fn generate_events() -> Vec<Hddm> {
    vec![
        Hddm {
            student: Some(Student {
                name: "Dene".to_string(),
                enrolled: vec![Enrolled {
                    semester: 1,
                    year: 2026,
                    courses: vec![Course {
                        credits: 3,
                        title: "HDDM 101".to_string(),
                        result: Some(ResultElement { pass: true, grade: "A".to_string() }),
                    }],
                }],
            }),
        },
        Hddm {
            student: Some(Student {
                name: "Aditi".to_string(),
                enrolled: vec![Enrolled {
                    semester: 1,
                    year: 2026,
                    courses: vec![
                        Course {
                            credits: 3,
                            title: "Science 101".to_string(),
                            result: Some(ResultElement { pass: true, grade: "A+".to_string() }),
                        },
                        Course { credits: 10, title: "Engineering 500".to_string(), result: None },
                    ],
                }],
            }),
        },
    ]
}

fn roundtrip_with(compression: Compression) -> HddmResult<()> {
    let mut file = HddmFile::create(MODEL)?.with_compression(compression)?;

    let events = generate_events();
    file.write_record(&events[0])?;
    file.write_record(&events[1])?;
    file.finish()?;
    let bytes = file.take_output();

    let mut file = HddmFile::open(bytes)?;
    assert_eq!(file.read_record::<Hddm>()?.as_ref(), Some(&events[0]));
    assert_eq!(file.read_record::<Hddm>()?.as_ref(), Some(&events[1]));
    assert!(file.read_record::<Hddm>()?.is_none());
    Ok(())
}

#[test]
fn test_roundtrip() -> HddmResult<()> {
    roundtrip_with(Compression::Uncompressed)
}

#[test]
fn test_roundtrip_zlib() -> HddmResult<()> {
    roundtrip_with(Compression::Zlib)
}

#[test]
fn test_roundtrip_bzip2() -> HddmResult<()> {
    roundtrip_with(Compression::Bzip2)
}

#[test]
fn test_compression_switching() -> HddmResult<()> {
    let mut out = HddmFile::create(MODEL)?.with_compression(Compression::Uncompressed)?;
    let events = generate_events();

    out.write_record(&events[0])?;

    out.set_compression(Compression::Zlib)?;
    out.write_record(&events[1])?;

    out.set_compression(Compression::Uncompressed)?;
    out.write_record(&events[0])?;

    out.set_compression(Compression::Bzip2)?;
    out.write_record(&events[1])?;

    out.finish()?;
    let bytes = out.take_output();

    let mut input = HddmFile::open(bytes)?;

    assert_eq!(input.read_record::<Hddm>()?.as_ref(), Some(&events[0]));
    assert_eq!(input.read_record::<Hddm>()?.as_ref(), Some(&events[1]));
    assert_eq!(input.read_record::<Hddm>()?.as_ref(), Some(&events[0]));
    assert_eq!(input.read_record::<Hddm>()?.as_ref(), Some(&events[1]));
    assert_eq!(input.read_record::<Hddm>()?, None);
    Ok(())
}

const MODEL_WITH_EXTRA: &str = r#"<?xml version="1.0" encoding="UTF-8"?>
<HDDM class="x">
  <student name="string">
    <advisor name="string" />
    <enrolled semester="int" year="int" maxOccurs="unbounded">
      <course credits="int" title="string" maxOccurs="unbounded">
        <result minOccurs="0" Pass="boolean" grade="string" />
      </course>
    </enrolled>
  </student>
</HDDM>
"#;

#[derive(Debug, PartialEq)]
struct HddmExtra {
    student: Option<StudentExtra>,
}

#[derive(Debug, PartialEq)]
struct StudentExtra {
    name: String,
    advisor: Option<Advisor>,
    enrolled: Vec<Enrolled>,
}

#[derive(Debug, PartialEq)]
struct Advisor {
    name: String,
}

impl HddmWrite for Advisor {
    fn write_contents(&self, w: &mut HddmWriter) -> HddmResult<()> {
        HddmPrimitiveWrite::write_primitive(&self.name, w)?;
        Ok(())
    }
}

impl HddmWrite for StudentExtra {
    fn write_contents(&self, w: &mut HddmWriter) -> HddmResult<()> {
        HddmPrimitiveWrite::write_primitive(&self.name, w)?;
        w.write_link(&self.advisor)?;
        w.write_list(&self.enrolled)?;
        Ok(())
    }
}

impl HddmWrite for HddmExtra {
    fn write_contents(&self, w: &mut HddmWriter) -> HddmResult<()> {
        w.write_link(&self.student)?;
        Ok(())
    }
}

#[test]
fn skips_unknown_child_from_file_schema() -> HddmResult<()> {
    let extra = HddmExtra {
        student: Some(StudentExtra {
            name: "Dene".into(),
            advisor: Some(Advisor { name: "Dr. X".into() }),
            enrolled: vec![Enrolled {
                semester: 1,
                year: 2026,
                courses: vec![Course {
                    credits: 3,
                    title: "HDDM 101".into(),
                    result: Some(ResultElement { pass: true, grade: "A".into() }),
                }],
            }],
        }),
    };

    let expected = Hddm {
        student: Some(Student {
            name: "Dene".into(),
            enrolled: vec![Enrolled {
                semester: 1,
                year: 2026,
                courses: vec![Course {
                    credits: 3,
                    title: "HDDM 101".into(),
                    result: Some(ResultElement { pass: true, grade: "A".into() }),
                }],
            }],
        }),
    };

    let mut out = HddmFile::create(MODEL_WITH_EXTRA)?;
    out.write_record(&extra)?;
    out.finish()?;
    let bytes = out.take_output();

    let mut input = HddmFile::open(bytes)?;

    assert_eq!(input.read_record::<Hddm>()?, Some(expected));
    assert!(input.read_record::<Hddm>()?.is_none());

    Ok(())
}

const MODEL_MISSING_OPTIONAL: &str = r#"<?xml version="1.0" encoding="UTF-8"?>
<HDDM class="x">
  <student name="string">
    <enrolled semester="int" year="int" maxOccurs="unbounded">
      <course credits="int" title="string" maxOccurs="unbounded">
      </course>
    </enrolled>
  </student>
</HDDM>
"#;

#[derive(Debug, PartialEq)]
struct HddmMissingOptional {
    student: Option<StudentMissingOptional>,
}
#[derive(Debug, PartialEq)]
struct StudentMissingOptional {
    name: String,
    enrolled: Vec<EnrolledMissingOptional>,
}
#[derive(Debug, PartialEq)]
struct EnrolledMissingOptional {
    semester: i32,
    year: i32,
    courses: Vec<CourseMissingOptional>,
}
#[derive(Debug, PartialEq)]
struct CourseMissingOptional {
    credits: i32,
    title: String,
}

impl HddmWrite for CourseMissingOptional {
    fn write_contents(&self, w: &mut HddmWriter) -> HddmResult<()> {
        HddmPrimitiveWrite::write_primitive(&self.credits, w)?;
        HddmPrimitiveWrite::write_primitive(&self.title, w)?;
        Ok(())
    }
}

impl HddmWrite for EnrolledMissingOptional {
    fn write_contents(&self, w: &mut HddmWriter) -> HddmResult<()> {
        HddmPrimitiveWrite::write_primitive(&self.semester, w)?;
        HddmPrimitiveWrite::write_primitive(&self.year, w)?;
        w.write_list(&self.courses)?;
        Ok(())
    }
}

impl HddmWrite for StudentMissingOptional {
    fn write_contents(&self, w: &mut HddmWriter) -> HddmResult<()> {
        HddmPrimitiveWrite::write_primitive(&self.name, w)?;
        w.write_list(&self.enrolled)?;
        Ok(())
    }
}

impl HddmWrite for HddmMissingOptional {
    fn write_contents(&self, w: &mut HddmWriter) -> HddmResult<()> {
        w.write_link(&self.student)?;
        Ok(())
    }
}

#[test]
fn defaults_missing_optional_child() -> HddmResult<()> {
    let written = HddmMissingOptional {
        student: Some(StudentMissingOptional {
            name: "Dene".into(),
            enrolled: vec![EnrolledMissingOptional {
                semester: 1,
                year: 2026,
                courses: vec![CourseMissingOptional { credits: 3, title: "HDDM 101".into() }],
            }],
        }),
    };
    let expected = Hddm {
        student: Some(Student {
            name: "Dene".into(),
            enrolled: vec![Enrolled {
                semester: 1,
                year: 2026,
                courses: vec![Course { credits: 3, title: "HDDM 101".into(), result: None }],
            }],
        }),
    };
    let mut out = HddmFile::create(MODEL_MISSING_OPTIONAL)?;
    out.write_record(&written)?;
    out.finish()?;
    let bytes = out.take_output();
    let mut input = HddmFile::open(bytes)?;
    assert_eq!(input.read_record::<Hddm>()?, Some(expected));
    Ok(())
}

const MODEL_ATTR_MISMATCH: &str = r#"<?xml version="1.0" encoding="UTF-8"?>
<HDDM class="x">
  <student full_name="string">
    <enrolled semester="int" year="int" maxOccurs="unbounded">
      <course credits="int" title="string" maxOccurs="unbounded">
        <result Pass="boolean" grade="string" />
      </course>
    </enrolled>
  </student>
</HDDM>
"#;

#[derive(Debug, PartialEq)]
struct HddmAttrMismatch {
    student: Option<StudentAttrMismatch>,
}

#[derive(Debug, PartialEq)]
struct StudentAttrMismatch {
    full_name: String,
    enrolled: Vec<Enrolled>,
}

impl HddmWrite for StudentAttrMismatch {
    fn write_contents(&self, w: &mut HddmWriter) -> HddmResult<()> {
        HddmPrimitiveWrite::write_primitive(&self.full_name, w)?;
        w.write_list(&self.enrolled)?;
        Ok(())
    }
}

impl HddmWrite for HddmAttrMismatch {
    fn write_contents(&self, w: &mut HddmWriter) -> HddmResult<()> {
        w.write_link(&self.student)?;
        Ok(())
    }
}

#[test]
fn errors_on_attribute_mismatch() -> HddmResult<()> {
    let written = HddmAttrMismatch {
        student: Some(StudentAttrMismatch { full_name: "Dene".into(), enrolled: Vec::new() }),
    };

    let mut out = HddmFile::create(MODEL_ATTR_MISMATCH)?;
    out.write_record(&written)?;
    out.finish()?;
    let bytes = out.take_output();

    let mut input = HddmFile::open(bytes)?;
    let err = input.read_record::<Hddm>().unwrap_err();

    assert!(err.message().contains("attribute mismatch"));

    Ok(())
}

#[test]
fn class_mismatch_is_reported() -> HddmResult<()> {
    let other = MODEL.replace("class=\"x\"", "class=\"y\"");
    let mut out = HddmFile::create(&other)?;
    out.write_record(&generate_events()[0])?;
    out.finish()?;
    let mut input = HddmFile::open(out.take_output())?;
    let err = input.read_record::<Hddm>().unwrap_err();
    assert_eq!(
        err,
        HddmError::FormatError(FormatError::ClassMismatch {
            file_class: Some("y".to_string()),
            expected_class: Some("x".to_string()),
        })
    );
    assert_eq!(
        err.message(),
        "invalid HDDM format: HDDM class mismatch: file has Some(\"y\"), generated expects Some(\"x\")"
    );
    Ok(())
}

#[test]
fn file_without_closing_root_is_header_eof() {
    let bytes = b"<HDDM class=\"x\"><student name=\"string\"/>".to_vec();
    let err = HddmFile::open(bytes).err().unwrap();
    assert_eq!(err, HddmError::FormatError(FormatError::HeaderEof));
    assert_eq!(err.message(), "invalid HDDM format: reached EOF before complete HDDM header");
}

#[test]
fn appended_records_follow_a_file() -> HddmResult<()> {
    let events = generate_events();
    let mut out = HddmFile::create(MODEL)?;
    out.write_record(&events[0])?;
    out.finish()?;
    let mut bytes = out.take_output();
    let mut more = HddmFile::append()?;
    more.write_record(&events[1])?;
    more.finish()?;
    bytes.extend(more.take_output());
    let mut input = HddmFile::open(bytes)?;
    assert_eq!(input.read_record::<Hddm>()?.as_ref(), Some(&events[0]));
    assert_eq!(input.read_record::<Hddm>()?.as_ref(), Some(&events[1]));
    assert!(input.read_record::<Hddm>()?.is_none());
    Ok(())
}

#[test]
fn header_of_opened_file_is_the_model() -> HddmResult<()> {
    let mut out = HddmFile::create(MODEL)?;
    out.finish()?;
    let input = HddmFile::open(out.take_output())?;
    assert_eq!(input.header(), Hddm::model());
    assert_eq!(input.header().class_name.as_deref(), Some("x"));
    Ok(())
}

#[test]
fn created_file_is_header_then_status_token() -> HddmResult<()> {
    let mut out = HddmFile::create(MODEL)?;
    let bytes = out.take_output();
    let mut expected = MODEL.as_bytes().to_vec();
    expected.extend([0, 0, 0, 1, 0, 0, 0, 8, 0, 0, 0, 0, 0, 0, 0, 0x10]);
    assert_eq!(bytes, expected);
    Ok(())
}
