use vstd::prelude::*;
use crate::text::{decimal, decimal_digits, lemma_decimal_nonempty, digit_char, digit_of, push_char, push_chars};

verus! {

/// The two languages of the interface.
#[derive(Clone, Copy, PartialEq, Eq, Structural)]
pub enum Lang {
    Tr,
    En,
}

impl Default for Lang {
    fn default() -> (l: Lang)
        ensures
            l == Lang::Tr,
    {
        Lang::Tr
    }
}

/// The interface strings of one language.
#[derive(Clone, Copy)]
pub struct T {
    pub app: &'static str,
    pub open: &'static str,
    pub reload: &'static str,
    pub zoom_full: &'static str,
    pub zoom_in: &'static str,
    pub zoom_out: &'static str,
    pub free_space: &'static str,
    pub run_open: &'static str,
    pub delete: &'static str,
    pub setup: &'static str,
    pub about: &'static str,
    pub total: &'static str,
    pub free: &'static str,
    pub files_total: &'static str,
    pub folders_total: &'static str,
    pub bytes: &'static str,
    pub files: &'static str,
    pub folders: &'static str,
    pub select_title: &'static str,
    pub path: &'static str,
    pub home: &'static str,
    pub network: &'static str,
    pub one_fs: &'static str,
    pub scan: &'static str,
    pub cancel: &'static str,
    pub scanning: &'static str,
    pub found_files: &'static str,
    pub found_folders: &'static str,
    pub show_in_fm: &'static str,
    pub copy_path: &'static str,
    pub confirm_trash: &'static str,
    pub trash_error: &'static str,
    pub ok: &'static str,
    pub settings: &'static str,
    pub language: &'static str,
    pub layout: &'static str,
    pub density: &'static str,
    pub density_many: &'static str,
    pub density_few: &'static str,
    pub bias: &'static str,
    pub horz: &'static str,
    pub vert: &'static str,
    pub tooltips: &'static str,
    pub info_tips: &'static str,
    pub full_path: &'static str,
    pub date_time: &'static str,
    pub file_size: &'static str,
    pub counts: &'static str,
    pub delay_ms: &'static str,
    pub rollover: &'static str,
    pub misc: &'static str,
    pub animated_zoom: &'static str,
    pub disable_delete: &'static str,
    pub about_text: &'static str,
    pub empty_hint: &'static str,
    pub not_found: &'static str,
    pub map: &'static str,
    pub list: &'static str,
    pub layout_style: &'static str,
    pub squarified: &'static str,
    pub classic: &'static str,
    pub protect_system: &'static str,
    pub protected_msg: &'static str,
    pub col_name: &'static str,
    pub col_share: &'static str,
    pub col_date: &'static str,
}

/// The string table of each language.
pub open spec fn table(lang: Lang) -> T {
    match lang {
        Lang::Tr => T {
            app: "Disk Haritası",
            open: "Aç",
            reload: "Yenile",
            zoom_full: "Tümü",
            zoom_in: "Yakınlaş",
            zoom_out: "Uzaklaş",
            free_space: "Boş Alan",
            run_open: "Çalıştır/Aç",
            delete: "Sil",
            setup: "Ayarlar",
            about: "Hakkında",
            total: "toplam",
            free: "boş",
            files_total: "Dosya",
            folders_total: "Klasör",
            bytes: "bayt",
            files: "dosya",
            folders: "klasör",
            select_title: "Taranacak yeri seç",
            path: "Yol",
            home: "Ev klasörü",
            network: "ağ",
            one_fs: "Başka dosya sistemlerine geçme",
            scan: "Tara",
            cancel: "İptal",
            scanning: "Taranıyor…",
            found_files: "Bulunan dosya",
            found_folders: "Bulunan klasör",
            show_in_fm: "Dosya yöneticisinde göster",
            copy_path: "Yolu kopyala",
            confirm_trash: "Çöp kutusuna taşınsın mı?",
            trash_error: "Çöp kutusuna taşınamadı",
            ok: "Tamam",
            settings: "Ayarlar",
            language: "Dil",
            layout: "Yerleşim",
            density: "Yoğunluk",
            density_many: "Çok dosya",
            density_few: "Az dosya",
            bias: "Eğilim",
            horz: "Yatay",
            vert: "Dikey",
            tooltips: "İpuçları",
            info_tips: "Bilgi ipucu göster",
            full_path: "Tam yol",
            date_time: "Tarih / saat",
            file_size: "Boyut",
            counts: "Dosya/klasör sayısı",
            delay_ms: "Gecikme (ms)",
            rollover: "Üzerine gelince kutuyu çerçevele",
            misc: "Çeşitli",
            animated_zoom: "Animasyonlu yakınlaş / uzaklaş",
            disable_delete: "Silme komutunu kapat",
            about_text: "Disk kullanımını iç içe kutular (treemap) olarak gösterir.",
            empty_hint: "Taramak için «Aç»",
            not_found: "Bulunamadı",
            map: "Harita",
            list: "Liste",
            layout_style: "Biçim:",
            squarified: "Kareye yakın",
            classic: "Klasik (SpaceMonger 1.4)",
            protect_system: "Sistem klasörlerini silmeye karşı koru",
            protected_msg: "Korumalı konum: sistem klasörü, ev klasörü ya da bağlama noktası silinemez.",
            col_name: "Ad",
            col_share: "Pay",
            col_date: "Değiştirilme",
        },
        Lang::En => T {
            app: "Disk Map",
            open: "Open",
            reload: "Reload",
            zoom_full: "Zoom Full",
            zoom_in: "Zoom In",
            zoom_out: "Zoom Out",
            free_space: "Free Space",
            run_open: "Run or Open",
            delete: "Delete",
            setup: "Setup",
            about: "About",
            total: "total",
            free: "free",
            files_total: "Files",
            folders_total: "Folders",
            bytes: "bytes",
            files: "files",
            folders: "folders",
            select_title: "Select location to view",
            path: "Path",
            home: "Home folder",
            network: "network",
            one_fs: "Stay on one file system",
            scan: "Scan",
            cancel: "Cancel",
            scanning: "Scanning…",
            found_files: "Files found",
            found_folders: "Folders found",
            show_in_fm: "Show in file manager",
            copy_path: "Copy path",
            confirm_trash: "Move to trash?",
            trash_error: "Could not move to trash",
            ok: "OK",
            settings: "Settings",
            language: "Language",
            layout: "Layout",
            density: "Density",
            density_many: "Lots of files",
            density_few: "Few files",
            bias: "Bias",
            horz: "Horizontal",
            vert: "Vertical",
            tooltips: "Tooltips",
            info_tips: "Show info tips",
            full_path: "Full path",
            date_time: "Date / time",
            file_size: "Size",
            counts: "File/folder counts",
            delay_ms: "Delay (ms)",
            rollover: "Outline box under pointer",
            misc: "Miscellaneous",
            animated_zoom: "Animated zoom in / out",
            disable_delete: "Disable delete command",
            about_text: "Shows disk usage as nested boxes (treemap).",
            empty_hint: "Click “Open” to scan",
            not_found: "Not found",
            map: "Map",
            list: "List",
            layout_style: "Style:",
            squarified: "Squarified",
            classic: "Classic (SpaceMonger 1.4)",
            protect_system: "Protect system folders from deletion",
            protected_msg: "Protected location: system folders, the home folder and mount points cannot be deleted.",
            col_name: "Name",
            col_share: "Share",
            col_date: "Modified",
        },
    }
}

/// The string table of `lang`.
pub fn t(lang: Lang) -> (r: T)
    ensures
        r == table(lang),
{
    match lang {
        Lang::Tr => T {
            app: "Disk Haritası",
            open: "Aç",
            reload: "Yenile",
            zoom_full: "Tümü",
            zoom_in: "Yakınlaş",
            zoom_out: "Uzaklaş",
            free_space: "Boş Alan",
            run_open: "Çalıştır/Aç",
            delete: "Sil",
            setup: "Ayarlar",
            about: "Hakkında",
            total: "toplam",
            free: "boş",
            files_total: "Dosya",
            folders_total: "Klasör",
            bytes: "bayt",
            files: "dosya",
            folders: "klasör",
            select_title: "Taranacak yeri seç",
            path: "Yol",
            home: "Ev klasörü",
            network: "ağ",
            one_fs: "Başka dosya sistemlerine geçme",
            scan: "Tara",
            cancel: "İptal",
            scanning: "Taranıyor…",
            found_files: "Bulunan dosya",
            found_folders: "Bulunan klasör",
            show_in_fm: "Dosya yöneticisinde göster",
            copy_path: "Yolu kopyala",
            confirm_trash: "Çöp kutusuna taşınsın mı?",
            trash_error: "Çöp kutusuna taşınamadı",
            ok: "Tamam",
            settings: "Ayarlar",
            language: "Dil",
            layout: "Yerleşim",
            density: "Yoğunluk",
            density_many: "Çok dosya",
            density_few: "Az dosya",
            bias: "Eğilim",
            horz: "Yatay",
            vert: "Dikey",
            tooltips: "İpuçları",
            info_tips: "Bilgi ipucu göster",
            full_path: "Tam yol",
            date_time: "Tarih / saat",
            file_size: "Boyut",
            counts: "Dosya/klasör sayısı",
            delay_ms: "Gecikme (ms)",
            rollover: "Üzerine gelince kutuyu çerçevele",
            misc: "Çeşitli",
            animated_zoom: "Animasyonlu yakınlaş / uzaklaş",
            disable_delete: "Silme komutunu kapat",
            about_text: "Disk kullanımını iç içe kutular (treemap) olarak gösterir.",
            empty_hint: "Taramak için «Aç»",
            not_found: "Bulunamadı",
            map: "Harita",
            list: "Liste",
            layout_style: "Biçim:",
            squarified: "Kareye yakın",
            classic: "Klasik (SpaceMonger 1.4)",
            protect_system: "Sistem klasörlerini silmeye karşı koru",
            protected_msg: "Korumalı konum: sistem klasörü, ev klasörü ya da bağlama noktası silinemez.",
            col_name: "Ad",
            col_share: "Pay",
            col_date: "Değiştirilme",
        },
        Lang::En => T {
            app: "Disk Map",
            open: "Open",
            reload: "Reload",
            zoom_full: "Zoom Full",
            zoom_in: "Zoom In",
            zoom_out: "Zoom Out",
            free_space: "Free Space",
            run_open: "Run or Open",
            delete: "Delete",
            setup: "Setup",
            about: "About",
            total: "total",
            free: "free",
            files_total: "Files",
            folders_total: "Folders",
            bytes: "bytes",
            files: "files",
            folders: "folders",
            select_title: "Select location to view",
            path: "Path",
            home: "Home folder",
            network: "network",
            one_fs: "Stay on one file system",
            scan: "Scan",
            cancel: "Cancel",
            scanning: "Scanning…",
            found_files: "Files found",
            found_folders: "Folders found",
            show_in_fm: "Show in file manager",
            copy_path: "Copy path",
            confirm_trash: "Move to trash?",
            trash_error: "Could not move to trash",
            ok: "OK",
            settings: "Settings",
            language: "Language",
            layout: "Layout",
            density: "Density",
            density_many: "Lots of files",
            density_few: "Few files",
            bias: "Bias",
            horz: "Horizontal",
            vert: "Vertical",
            tooltips: "Tooltips",
            info_tips: "Show info tips",
            full_path: "Full path",
            date_time: "Date / time",
            file_size: "Size",
            counts: "File/folder counts",
            delay_ms: "Delay (ms)",
            rollover: "Outline box under pointer",
            misc: "Miscellaneous",
            animated_zoom: "Animated zoom in / out",
            disable_delete: "Disable delete command",
            about_text: "Shows disk usage as nested boxes (treemap).",
            empty_hint: "Click “Open” to scan",
            not_found: "Not found",
            map: "Map",
            list: "List",
            layout_style: "Style:",
            squarified: "Squarified",
            classic: "Classic (SpaceMonger 1.4)",
            protect_system: "Protect system folders from deletion",
            protected_msg: "Protected location: system folders, the home folder and mount points cannot be deleted.",
            col_name: "Name",
            col_share: "Share",
            col_date: "Modified",
        },
    }
}

/// What each string of the two tables reads, field by field: the Turkish table, then the
/// English one.
pub proof fn lemma_string_tables()
    ensures
        table(Lang::Tr).app@ == "Disk Haritası"@,
        table(Lang::Tr).open@ == "Aç"@,
        table(Lang::Tr).reload@ == "Yenile"@,
        table(Lang::Tr).zoom_full@ == "Tümü"@,
        table(Lang::Tr).zoom_in@ == "Yakınlaş"@,
        table(Lang::Tr).zoom_out@ == "Uzaklaş"@,
        table(Lang::Tr).free_space@ == "Boş Alan"@,
        table(Lang::Tr).run_open@ == "Çalıştır/Aç"@,
        table(Lang::Tr).delete@ == "Sil"@,
        table(Lang::Tr).setup@ == "Ayarlar"@,
        table(Lang::Tr).about@ == "Hakkında"@,
        table(Lang::Tr).total@ == "toplam"@,
        table(Lang::Tr).free@ == "boş"@,
        table(Lang::Tr).files_total@ == "Dosya"@,
        table(Lang::Tr).folders_total@ == "Klasör"@,
        table(Lang::Tr).bytes@ == "bayt"@,
        table(Lang::Tr).files@ == "dosya"@,
        table(Lang::Tr).folders@ == "klasör"@,
        table(Lang::Tr).select_title@ == "Taranacak yeri seç"@,
        table(Lang::Tr).path@ == "Yol"@,
        table(Lang::Tr).home@ == "Ev klasörü"@,
        table(Lang::Tr).network@ == "ağ"@,
        table(Lang::Tr).one_fs@ == "Başka dosya sistemlerine geçme"@,
        table(Lang::Tr).scan@ == "Tara"@,
        table(Lang::Tr).cancel@ == "İptal"@,
        table(Lang::Tr).scanning@ == "Taranıyor…"@,
        table(Lang::Tr).found_files@ == "Bulunan dosya"@,
        table(Lang::Tr).found_folders@ == "Bulunan klasör"@,
        table(Lang::Tr).show_in_fm@ == "Dosya yöneticisinde göster"@,
        table(Lang::Tr).copy_path@ == "Yolu kopyala"@,
        table(Lang::Tr).confirm_trash@ == "Çöp kutusuna taşınsın mı?"@,
        table(Lang::Tr).trash_error@ == "Çöp kutusuna taşınamadı"@,
        table(Lang::Tr).ok@ == "Tamam"@,
        table(Lang::Tr).settings@ == "Ayarlar"@,
        table(Lang::Tr).language@ == "Dil"@,
        table(Lang::Tr).layout@ == "Yerleşim"@,
        table(Lang::Tr).density@ == "Yoğunluk"@,
        table(Lang::Tr).density_many@ == "Çok dosya"@,
        table(Lang::Tr).density_few@ == "Az dosya"@,
        table(Lang::Tr).bias@ == "Eğilim"@,
        table(Lang::Tr).horz@ == "Yatay"@,
        table(Lang::Tr).vert@ == "Dikey"@,
        table(Lang::Tr).tooltips@ == "İpuçları"@,
        table(Lang::Tr).info_tips@ == "Bilgi ipucu göster"@,
        table(Lang::Tr).full_path@ == "Tam yol"@,
        table(Lang::Tr).date_time@ == "Tarih / saat"@,
        table(Lang::Tr).file_size@ == "Boyut"@,
        table(Lang::Tr).counts@ == "Dosya/klasör sayısı"@,
        table(Lang::Tr).delay_ms@ == "Gecikme (ms)"@,
        table(Lang::Tr).rollover@ == "Üzerine gelince kutuyu çerçevele"@,
        table(Lang::Tr).misc@ == "Çeşitli"@,
        table(Lang::Tr).animated_zoom@ == "Animasyonlu yakınlaş / uzaklaş"@,
        table(Lang::Tr).disable_delete@ == "Silme komutunu kapat"@,
        table(Lang::Tr).about_text@ == "Disk kullanımını iç içe kutular (treemap) olarak gösterir."@,
        table(Lang::Tr).empty_hint@ == "Taramak için «Aç»"@,
        table(Lang::Tr).not_found@ == "Bulunamadı"@,
        table(Lang::Tr).map@ == "Harita"@,
        table(Lang::Tr).list@ == "Liste"@,
        table(Lang::Tr).layout_style@ == "Biçim:"@,
        table(Lang::Tr).squarified@ == "Kareye yakın"@,
        table(Lang::Tr).classic@ == "Klasik (SpaceMonger 1.4)"@,
        table(Lang::Tr).protect_system@ == "Sistem klasörlerini silmeye karşı koru"@,
        table(Lang::Tr).protected_msg@ == "Korumalı konum: sistem klasörü, ev klasörü ya da bağlama noktası silinemez."@,
        table(Lang::Tr).col_name@ == "Ad"@,
        table(Lang::Tr).col_share@ == "Pay"@,
        table(Lang::Tr).col_date@ == "Değiştirilme"@,
        table(Lang::En).app@ == "Disk Map"@,
        table(Lang::En).open@ == "Open"@,
        table(Lang::En).reload@ == "Reload"@,
        table(Lang::En).zoom_full@ == "Zoom Full"@,
        table(Lang::En).zoom_in@ == "Zoom In"@,
        table(Lang::En).zoom_out@ == "Zoom Out"@,
        table(Lang::En).free_space@ == "Free Space"@,
        table(Lang::En).run_open@ == "Run or Open"@,
        table(Lang::En).delete@ == "Delete"@,
        table(Lang::En).setup@ == "Setup"@,
        table(Lang::En).about@ == "About"@,
        table(Lang::En).total@ == "total"@,
        table(Lang::En).free@ == "free"@,
        table(Lang::En).files_total@ == "Files"@,
        table(Lang::En).folders_total@ == "Folders"@,
        table(Lang::En).bytes@ == "bytes"@,
        table(Lang::En).files@ == "files"@,
        table(Lang::En).folders@ == "folders"@,
        table(Lang::En).select_title@ == "Select location to view"@,
        table(Lang::En).path@ == "Path"@,
        table(Lang::En).home@ == "Home folder"@,
        table(Lang::En).network@ == "network"@,
        table(Lang::En).one_fs@ == "Stay on one file system"@,
        table(Lang::En).scan@ == "Scan"@,
        table(Lang::En).cancel@ == "Cancel"@,
        table(Lang::En).scanning@ == "Scanning…"@,
        table(Lang::En).found_files@ == "Files found"@,
        table(Lang::En).found_folders@ == "Folders found"@,
        table(Lang::En).show_in_fm@ == "Show in file manager"@,
        table(Lang::En).copy_path@ == "Copy path"@,
        table(Lang::En).confirm_trash@ == "Move to trash?"@,
        table(Lang::En).trash_error@ == "Could not move to trash"@,
        table(Lang::En).ok@ == "OK"@,
        table(Lang::En).settings@ == "Settings"@,
        table(Lang::En).language@ == "Language"@,
        table(Lang::En).layout@ == "Layout"@,
        table(Lang::En).density@ == "Density"@,
        table(Lang::En).density_many@ == "Lots of files"@,
        table(Lang::En).density_few@ == "Few files"@,
        table(Lang::En).bias@ == "Bias"@,
        table(Lang::En).horz@ == "Horizontal"@,
        table(Lang::En).vert@ == "Vertical"@,
        table(Lang::En).tooltips@ == "Tooltips"@,
        table(Lang::En).info_tips@ == "Show info tips"@,
        table(Lang::En).full_path@ == "Full path"@,
        table(Lang::En).date_time@ == "Date / time"@,
        table(Lang::En).file_size@ == "Size"@,
        table(Lang::En).counts@ == "File/folder counts"@,
        table(Lang::En).delay_ms@ == "Delay (ms)"@,
        table(Lang::En).rollover@ == "Outline box under pointer"@,
        table(Lang::En).misc@ == "Miscellaneous"@,
        table(Lang::En).animated_zoom@ == "Animated zoom in / out"@,
        table(Lang::En).disable_delete@ == "Disable delete command"@,
        table(Lang::En).about_text@ == "Shows disk usage as nested boxes (treemap)."@,
        table(Lang::En).empty_hint@ == "Click “Open” to scan"@,
        table(Lang::En).not_found@ == "Not found"@,
        table(Lang::En).map@ == "Map"@,
        table(Lang::En).list@ == "List"@,
        table(Lang::En).layout_style@ == "Style:"@,
        table(Lang::En).squarified@ == "Squarified"@,
        table(Lang::En).classic@ == "Classic (SpaceMonger 1.4)"@,
        table(Lang::En).protect_system@ == "Protect system folders from deletion"@,
        table(Lang::En).protected_msg@ == "Protected location: system folders, the home folder and mount points cannot be deleted."@,
        table(Lang::En).col_name@ == "Name"@,
        table(Lang::En).col_share@ == "Share"@,
        table(Lang::En).col_date@ == "Modified"@,
{
}



/// The digits of `ds` in groups of three from the right, `sep` between the groups.
pub open spec fn grouped(ds: Seq<char>, sep: char) -> Seq<char>
    decreases ds.len(),
{
    if ds.len() <= 3 {
        ds
    } else {
        grouped(ds.subrange(0, ds.len() - 3), sep).push(sep) + ds.subrange(ds.len() - 3, ds.len() as int)
    }
}

/// Three more digits make one more group.
proof fn lemma_grouped_step(ds: Seq<char>, m: int, sep: char)
    requires
        1 <= m,
        m + 3 <= ds.len(),
    ensures
        grouped(ds.subrange(0, m + 3), sep) == grouped(ds.subrange(0, m), sep).push(sep) + seq![
            ds[m],
            ds[m + 1],
            ds[m + 2],
        ],
{
    let pre = ds.subrange(0, m + 3);
    assert(pre.subrange(0, pre.len() - 3) =~= ds.subrange(0, m));
    assert(pre.subrange(pre.len() - 3, pre.len() as int) =~= seq![ds[m], ds[m + 1], ds[m + 2]]);
}

/// `s` with every `c` taken out.
pub open spec fn without_char(s: Seq<char>, c: char) -> Seq<char>
    decreases s.len(),
{
    if s.len() == 0 {
        Seq::empty()
    } else if s.last() == c {
        without_char(s.drop_last(), c)
    } else {
        without_char(s.drop_last(), c).push(s.last())
    }
}

proof fn lemma_without_char_concat(a: Seq<char>, b: Seq<char>, c: char)
    ensures
        without_char(a + b, c) == without_char(a, c) + without_char(b, c),
    decreases b.len(),
{
    if b.len() == 0 {
        assert(a + b =~= a);
        assert(without_char(b, c) =~= Seq::<char>::empty());
        assert(without_char(a, c) + Seq::<char>::empty() =~= without_char(a, c));
    } else {
        lemma_without_char_concat(a, b.drop_last(), c);
        assert((a + b).drop_last() =~= a + b.drop_last());
        assert((a + b).last() == b.last());
        if b.last() != c {
            assert(without_char(a, c) + without_char(b.drop_last(), c).push(b.last()) =~= (without_char(a, c)
                + without_char(b.drop_last(), c)).push(b.last()));
        }
    }
}

/// Grouping only adds separators: taking them out gives the digits back, and there is one
/// for every full group of three after the first digit.
pub proof fn lemma_grouped_keeps_digits(ds: Seq<char>, sep: char)
    requires
        !ds.contains(sep),
    ensures
        without_char(grouped(ds, sep), sep) == ds,
        ds.len() >= 1 ==> grouped(ds, sep).len() == ds.len() + (ds.len() - 1) / 3,
    decreases ds.len(),
{
    if ds.len() <= 3 {
        lemma_without_char_no_sep(ds, sep);
    } else {
        let head = ds.subrange(0, ds.len() - 3);
        let tail = ds.subrange(ds.len() - 3, ds.len() as int);
        assert forall|i: int| 0 <= i < head.len() implies head[i] != sep by {
            assert(head[i] == ds[i]);
        }
        assert(!head.contains(sep));
        lemma_grouped_keeps_digits(head, sep);
        assert forall|i: int| 0 <= i < tail.len() implies tail[i] != sep by {
            assert(tail[i] == ds[ds.len() - 3 + i]);
        }
        lemma_without_char_no_sep(tail, sep);
        let g = grouped(head, sep);
        lemma_without_char_concat(g.push(sep), tail, sep);
        assert(g.push(sep).drop_last() =~= g);
        assert(head + tail =~= ds);
    }
}

proof fn lemma_without_char_no_sep(s: Seq<char>, c: char)
    requires
        forall|i: int| 0 <= i < s.len() ==> s[i] != c,
    ensures
        without_char(s, c) == s,
    decreases s.len(),
{
    if s.len() > 0 {
        lemma_without_char_no_sep(s.drop_last(), c);
        assert(s.drop_last().push(s.last()) =~= s);
    }
}

/// The thousands separator of `lang`.
pub open spec fn thousands_sep(lang: Lang) -> char {
    if lang == Lang::Tr { '.' } else { ',' }
}

/// `n` in decimal with thousands separators:
/// 4269932544 reads "4.269.932.544" in Turkish and "4,269,932,544" in English.
pub fn thousands(n: u64, lang: Lang) -> (s: String)
    ensures
        s@ == grouped(decimal(n as nat), thousands_sep(lang)),
{
    let sep = if lang == Lang::Tr { '.' } else { ',' };
    let ds = decimal_digits(n as u128);
    proof {
        lemma_decimal_nonempty(n as nat);
    }
    let len = ds.len();
    let mut out = String::new();
    let g = (len - 1) % 3 + 1;
    let mut m: usize = 0;
    while m < g
        invariant
            1 <= g <= 3,
            g <= len,
            len == ds@.len(),
            m <= g,
            out@ == ds@.subrange(0, m as int),
        decreases g - m,
    {
        push_char(&mut out, ds[m]);
        m += 1;
        assert(out@ =~= ds@.subrange(0, m as int));
    }
    assert(grouped(ds@.subrange(0, g as int), sep) == ds@.subrange(0, g as int));
    while m < len
        invariant
            len == ds@.len(),
            1 <= g,
            g <= m <= len,
            (len - m) % 3 == 0,
            out@ == grouped(ds@.subrange(0, m as int), sep),
        decreases len - m,
    {
        let ghost before = out@;
        push_char(&mut out, sep);
        push_char(&mut out, ds[m]);
        push_char(&mut out, ds[m + 1]);
        push_char(&mut out, ds[m + 2]);
        proof {
            lemma_grouped_step(ds@, m as int, sep);
            assert(out@ =~= before.push(sep) + seq![ds@[m as int], ds@[m + 1], ds@[m + 2]]);
        }
        m += 3;
    }
    assert(ds@.subrange(0, len as int) =~= ds@);
    out
}


/// `2^e`.
pub open spec fn two_pow(e: nat) -> nat
    decreases e,
{
    if e == 0 {
        1
    } else {
        2 * two_pow((e - 1) as nat)
    }
}

/// `1024^k`.
pub open spec fn pow1024(k: nat) -> nat
    decreases k,
{
    if k == 0 {
        1
    } else {
        1024 * pow1024((k - 1) as nat)
    }
}

/// How many low bits of `b` fall outside a 53-bit significand.
pub open spec fn excess_bits(b: nat) -> nat
    decreases b,
{
    if b < 0x20000000000000 {
        0
    } else {
        1 + excess_bits(b / 2)
    }
}

/// `n / d` rounded to the nearest integer, ties to the even one.
pub open spec fn round_half_even(n: nat, d: nat) -> nat {
    let q = n / d;
    let r = n % d;
    if 2 * r > d || (2 * r == d && q % 2 == 1) {
        q + 1
    } else {
        q
    }
}

/// The value of `b as f64`: `b` rounded to 53 significant bits, ties to even.
pub open spec fn nearest_f64(b: nat) -> nat {
    let e = excess_bits(b);
    if e == 0 {
        b
    } else {
        round_half_even(b, two_pow(e)) * two_pow(e)
    }
}

/// The unit `human` settles on for the value `f`, starting from unit `u`: it moves to
/// the next unit while `f` is at least 1024 of it, up to the sixth (PiB).
pub open spec fn unit_from(f: nat, u: nat) -> nat
    decreases 5 - u,
{
    if u < 5 && f >= pow1024(u + 1) {
        unit_from(f, u + 1)
    } else {
        u
    }
}

/// The name of binary unit `u`: B, KiB, MiB, GiB, TiB, PiB.
pub open spec fn unit_name(u: nat) -> Seq<char> {
    if u == 0 {
        seq!['B']
    } else if u == 1 {
        seq!['K', 'i', 'B']
    } else if u == 2 {
        seq!['M', 'i', 'B']
    } else if u == 3 {
        seq!['G', 'i', 'B']
    } else if u == 4 {
        seq!['T', 'i', 'B']
    } else {
        seq!['P', 'i', 'B']
    }
}

/// The decimal mark of `lang`.
pub open spec fn decimal_mark(lang: Lang) -> char {
    if lang == Lang::Tr { ',' } else { '.' }
}

/// A size for people to read, in binary units. Below 1 KiB the exact count of bytes and
/// "B"; otherwise the value (taken as an `f64`) in the largest unit up to PiB that keeps
/// it at least 1, with one decimal rounded half to even, and the unit's name.
pub open spec fn human_text(bytes: u64, lang: Lang) -> Seq<char> {
    let f = nearest_f64(bytes as nat);
    let u = unit_from(f, 0);
    if u == 0 {
        decimal(bytes as nat) + seq![' ', 'B']
    } else {
        let q = round_half_even(f * 10, pow1024(u));
        decimal(q / 10) + seq![decimal_mark(lang), digit_char((q % 10) as int), ' '] + unit_name(u)
    }
}

proof fn lemma_two_pow_pos(e: nat)
    ensures
        two_pow(e) >= 1,
    decreases e,
{
    if e > 0 {
        lemma_two_pow_pos((e - 1) as nat);
    }
}

proof fn lemma_pow1024_values()
    ensures
        pow1024(0) == 1,
        pow1024(1) == 1024,
        pow1024(2) == 1048576,
        pow1024(3) == 1073741824,
        pow1024(4) == 1099511627776,
        pow1024(5) == 1125899906842624,
        pow1024(6) == 1152921504606846976,
{
    reveal_with_fuel(pow1024, 7);
}

/// `s` ends with `suffix`.
pub open spec fn ends_with(s: Seq<char>, suffix: Seq<char>) -> bool {
    s.len() >= suffix.len() && s.subrange(s.len() - suffix.len(), s.len() as int) == suffix
}

/// Past 53 bits, the significand that remains keeps at least 52 of them.
proof fn lemma_excess_quotient(b: nat)
    requires
        b >= 0x20000000000000,
    ensures
        excess_bits(b) >= 1,
        b / two_pow(excess_bits(b)) >= 0x10000000000000,
    decreases b,
{
    let h = b / 2;
    assert(excess_bits(b) == 1 + excess_bits(h));
    let e1 = excess_bits(h);
    lemma_two_pow_pos(e1);
    assert(two_pow(e1 + 1) == 2 * two_pow(e1));
    vstd::arithmetic::div_mod::lemma_div_denominator(b as int, 2, two_pow(e1) as int);
    if h < 0x20000000000000 {
        assert(e1 == 0);
        assert(two_pow(0) == 1);
    } else {
        lemma_excess_quotient(h);
    }
}

/// A size of 2^53 bytes or more is, as an `f64`, still at least 2^52.
proof fn lemma_nearest_large(b: nat)
    requires
        b >= 0x20000000000000,
    ensures
        nearest_f64(b) >= 0x10000000000000,
{
    lemma_excess_quotient(b);
    let e = excess_bits(b);
    let d = two_pow(e);
    lemma_two_pow_pos(e);
    let q = round_half_even(b, d);
    assert(q >= b / d);
    assert(q * d >= 0x10000000000000) by (nonlinear_arith)
        requires
            q >= 0x10000000000000,
            d >= 1,
    ;
}

/// The unit that `human` writes is the binary unit of the size: below 1 KiB the size in
/// "B"; from 1 KiB (1024 bytes) "KiB"; from 1 MiB (1048576) "MiB"; from 1 GiB
/// (1073741824) "GiB"; from 1 TiB (1099511627776) "TiB"; from 1 PiB
/// (1125899906842624) on "PiB". Below 1 KiB the text is the byte count itself.
pub proof fn lemma_human_units(bytes: u64, lang: Lang)
    ensures
        bytes < 1024 ==> human_text(bytes, lang) == decimal(bytes as nat) + seq![' ', 'B'],
        bytes < 1024 ==> ends_with(human_text(bytes, lang), seq![' ', 'B']),
        1024 <= bytes < 1048576 ==> ends_with(human_text(bytes, lang), seq![' ', 'K', 'i', 'B']),
        1048576 <= bytes < 1073741824 ==> ends_with(human_text(bytes, lang), seq![' ', 'M', 'i', 'B']),
        1073741824 <= bytes < 1099511627776 ==> ends_with(human_text(bytes, lang), seq![' ', 'G', 'i', 'B']),
        1099511627776 <= bytes < 1125899906842624 ==> ends_with(human_text(bytes, lang), seq![' ', 'T', 'i', 'B']),
        1125899906842624 <= bytes ==> ends_with(human_text(bytes, lang), seq![' ', 'P', 'i', 'B']),
{
    let b = bytes as nat;
    if b < 0x20000000000000 {
        assert(excess_bits(b) == 0);
        assert(nearest_f64(b) == b);
    } else {
        lemma_nearest_large(b);
    }
    let f = nearest_f64(b);
    lemma_pow1024_values();
    reveal_with_fuel(unit_from, 7);
    let u = unit_from(f, 0);
    let text = human_text(bytes, lang);
    if bytes < 1024 {
        assert(u == 0);
        let dd = decimal(b);
        assert(text == dd + seq![' ', 'B']);
        assert(text.subrange(text.len() - 2, text.len() as int) =~= seq![' ', 'B']);
    } else {
        let want: Seq<char> = if bytes < 1048576 {
            assert(u == 1);
            seq![' ', 'K', 'i', 'B']
        } else if bytes < 1073741824 {
            assert(u == 2);
            seq![' ', 'M', 'i', 'B']
        } else if bytes < 1099511627776 {
            assert(u == 3);
            seq![' ', 'G', 'i', 'B']
        } else if bytes < 1125899906842624 {
            assert(u == 4);
            seq![' ', 'T', 'i', 'B']
        } else {
            assert(u == 5);
            seq![' ', 'P', 'i', 'B']
        };
        let q = round_half_even(f * 10, pow1024(u));
        let head = decimal(q / 10) + seq![decimal_mark(lang), digit_char((q % 10) as int)];
        let unit = unit_name(u);
        assert(seq![' '] + unit =~= want);
        assert(text =~= head + seq![' '] + unit);
        assert(text.subrange(text.len() - 4, text.len() as int) =~= want);
    }
}

/// The exact value of `b as f64`.
fn nearest_f64_exec(b: u64) -> (f: u128)
    ensures
        f == nearest_f64(b as nat),
        f <= 0x20000000000000000,
{
    let mut t: u128 = b as u128;
    let mut p: u128 = 1;
    let ghost mut e: nat = 0;
    while t >= 0x20000000000000
        invariant
            p == two_pow(e),
            1 <= p,
            p == 1 || p <= b,
            t == b as nat / p as nat,
            excess_bits(b as nat) == e + excess_bits(t as nat),
            e == 0 ==> t == b,
            e > 0 ==> p >= 2,
        decreases t,
    {
        proof {
            vstd::arithmetic::div_mod::lemma_div_denominator(b as int, p as int, 2);
            assert(t * p <= b) by {
                vstd::arithmetic::div_mod::lemma_fundamental_div_mod(b as int, p as int);
                vstd::arithmetic::div_mod::lemma_mod_pos_bound(b as int, p as int);
            }
            assert(p * 2 <= b) by (nonlinear_arith)
                requires
                    t * p <= b,
                    t >= 2,
                    p >= 1,
            ;
        }
        t = t / 2;
        p = p * 2;
        proof {
            e = e + 1;
        }
    }
    if p == 1 {
        proof {
            if e > 0 {
                assert(two_pow(e) == 2 * two_pow((e - 1) as nat));
                lemma_two_pow_pos((e - 1) as nat);
            }
            assert(b < 0x20000000000000);
        }
        return b as u128;
    }
    proof {
        assert(excess_bits(b as nat) == e);
    }
    let q = b as u128 / p;
    let r = b as u128 % p;
    let rounded = if 2 * r > p || (2 * r == p && q % 2 == 1) { q + 1 } else { q };
    proof {
        assert(rounded * p <= 0x20000000000000000) by {
            assert(q * p <= b) by {
                vstd::arithmetic::div_mod::lemma_fundamental_div_mod(b as int, p as int);
                vstd::arithmetic::div_mod::lemma_mod_pos_bound(b as int, p as int);
            }
            assert(p <= 2 * r || rounded == q);
            assert(r < p) by {
                vstd::arithmetic::div_mod::lemma_mod_pos_bound(b as int, p as int);
            }
            assert(rounded * p <= q * p + p) by (nonlinear_arith)
                requires
                    rounded <= q + 1,
                    p >= 0,
            ;
            assert(q * p + p <= b + p);
            assert(p <= b);
        }
    }
    rounded * p
}

/// A size for people to read, in binary units (see `human_text`).
pub fn human(bytes: u64, lang: Lang) -> (s: String)
    ensures
        s@ == human_text(bytes, lang),
{
    let f = nearest_f64_exec(bytes);
    proof {
        lemma_pow1024_values();
    }
    let mut u: usize = 0;
    let mut den: u128 = 1;
    while u < 5 && f >= den * 1024
        invariant
            u <= 5,
            den == pow1024(u as nat),
            den <= 1125899906842624,
            u < 5 ==> den <= 1099511627776,
            unit_from(f as nat, 0) == unit_from(f as nat, u as nat),
            f <= 0x20000000000000000,
        decreases 5 - u,
    {
        den = den * 1024;
        u += 1;
        proof {
            lemma_pow1024_values();
        }
    }
    let mut s = String::new();
    if u == 0 {
        let ds = decimal_digits(bytes as u128);
        push_chars(&mut s, &ds);
        push_char(&mut s, ' ');
        push_char(&mut s, 'B');
        return s;
    }
    let num = f * 10;
    let q0 = num / den;
    let r = num % den;
    let q = if 2 * r > den || (2 * r == den && q0 % 2 == 1) { q0 + 1 } else { q0 };
    let ds = decimal_digits(q / 10);
    push_chars(&mut s, &ds);
    push_char(&mut s, if lang == Lang::Tr { ',' } else { '.' });
    push_char(&mut s, digit_of(q % 10));
    push_char(&mut s, ' ');
    let letter = if u == 1 {
        'K'
    } else if u == 2 {
        'M'
    } else if u == 3 {
        'G'
    } else if u == 4 {
        'T'
    } else {
        'P'
    };
    push_char(&mut s, letter);
    push_char(&mut s, 'i');
    push_char(&mut s, 'B');
    assert(s@ =~= human_text(bytes, lang));
    s
}


/// Whether chrono's `DateTime::from_timestamp(secs, 0)` gives a date-time: `secs` lies
/// from the start of 1 January of year -262143 to the end of 31 December of year
/// 262142, UTC, the range of chrono's `NaiveDate`.
pub open spec fn in_chrono_range(secs: i64) -> bool {
    -8334601228800 <= secs <= 8210266876799
}

/// A decimal digit.
pub open spec fn is_digit(c: char) -> bool {
    '0' <= c && c <= '9'
}

/// Two decimal digits at `i` and `i + 1`, as chrono writes `%d`, `%m`, `%H`, `%M` and `%S`.
pub open spec fn two_digits_at(t: Seq<char>, i: int) -> bool {
    is_digit(t[i]) && is_digit(t[i + 1])
}

/// A year as chrono writes `%Y`: four digits for the years 0 to 9999, otherwise a sign
/// followed by at least four digits.
pub open spec fn year_text(y: Seq<char>) -> bool {
    ||| y.len() == 4 && forall|k: int| 0 <= k < 4 ==> is_digit(#[trigger] y[k])
    ||| y.len() >= 5 && (y[0] == '+' || y[0] == '-') && forall|k: int|
        1 <= k < y.len() ==> is_digit(#[trigger] y[k])
}

/// One of the English month abbreviations that chrono writes for `%b`.
pub open spec fn short_month(m: Seq<char>) -> bool {
    ||| m == seq!['J', 'a', 'n']
    ||| m == seq!['F', 'e', 'b']
    ||| m == seq!['M', 'a', 'r']
    ||| m == seq!['A', 'p', 'r']
    ||| m == seq!['M', 'a', 'y']
    ||| m == seq!['J', 'u', 'n']
    ||| m == seq!['J', 'u', 'l']
    ||| m == seq!['A', 'u', 'g']
    ||| m == seq!['S', 'e', 'p']
    ||| m == seq!['O', 'c', 't']
    ||| m == seq!['N', 'o', 'v']
    ||| m == seq!['D', 'e', 'c']
}

/// The last ten characters of `t` are two spaces and `HH:MM:SS`.
pub open spec fn time_tail(t: Seq<char>) -> bool {
    let n = t.len() as int;
    &&& n >= 10
    &&& t[n - 10] == ' '
    &&& t[n - 9] == ' '
    &&& two_digits_at(t, n - 8)
    &&& t[n - 6] == ':'
    &&& two_digits_at(t, n - 5)
    &&& t[n - 3] == ':'
    &&& two_digits_at(t, n - 2)
}

/// The shape of a date in the format of `lang`: `DD.MM.YYYY  HH:MM:SS` in Turkish,
/// `DD Mon YYYY  HH:MM:SS` in English, the year as `year_text` describes it.
pub open spec fn date_shape(lang: Lang, t: Seq<char>) -> bool {
    let n = t.len() as int;
    match lang {
        Lang::Tr => {
            &&& n >= 20
            &&& two_digits_at(t, 0)
            &&& t[2] == '.'
            &&& two_digits_at(t, 3)
            &&& t[5] == '.'
            &&& year_text(t.subrange(6, n - 10))
            &&& time_tail(t)
        },
        Lang::En => {
            &&& n >= 21
            &&& two_digits_at(t, 0)
            &&& t[2] == ' '
            &&& short_month(t.subrange(3, 6))
            &&& t[6] == ' '
            &&& year_text(t.subrange(7, n - 10))
            &&& time_tail(t)
        },
    }
}

/// What chrono's `DateTime::from_timestamp(secs, 0)`, moved to the fixed UTC offset of
/// `offset` seconds with `with_timezone` and written with the strftime `pattern` by
/// `format(..).to_string()`, gives: a function of these three values alone.
pub uninterp spec fn offset_date_text(secs: i64, offset: i32, pattern: Seq<char>) -> Seq<char>;

/// Calls chrono's `DateTime::from_timestamp(secs, 0)`, `FixedOffset::east_opt(offset)`,
/// `DateTime::with_timezone` and `DateTime::format(pattern)`, rendered to a string. In
/// chrono's source `from_timestamp` succeeds exactly on `in_chrono_range`, `east_opt`
/// succeeds on offsets of less than a day either way, moving a date-time to a fixed
/// offset cannot fail, and formatting reads the local date and time with the offset's
/// headroom past chrono's year range, so nothing here panics. The two patterns of this
/// crate format as `date_shape` describes (zero-padded two-digit fields, `%Y` as
/// `year_text`, `%b` in English); the text itself is named `offset_date_text`.
#[verifier::external_body]
fn fixed_offset_text(secs: i64, offset: i32, pattern: &str) -> (r: Option<String>)
    requires
        -86400 < offset < 86400,
        pattern@ == "%d.%m.%Y  %H:%M:%S"@ || pattern@ == "%d %b %Y  %H:%M:%S"@,
    ensures
        r is Some <==> in_chrono_range(secs),
        r matches Some(t) ==> t@ == offset_date_text(secs, offset, pattern@),
        r matches Some(t) ==> (pattern@ == "%d.%m.%Y  %H:%M:%S"@ ==> date_shape(Lang::Tr, t@)),
        r matches Some(t) ==> (pattern@ == "%d %b %Y  %H:%M:%S"@ ==> date_shape(Lang::En, t@)),
{
    match (chrono::DateTime::from_timestamp(secs, 0), chrono::FixedOffset::east_opt(offset)) {
        (Some(dt), Some(off)) => Some(dt.with_timezone(&off).format(pattern).to_string()),
        _ => None,
    }
}

/// The date format of `lang`, as a strftime pattern.
pub open spec fn date_pattern_text(lang: Lang) -> Seq<char> {
    match lang {
        Lang::Tr => "%d.%m.%Y  %H:%M:%S"@,
        Lang::En => "%d %b %Y  %H:%M:%S"@,
    }
}

/// The date format of `lang`, as a strftime pattern.
pub fn date_pattern(lang: Lang) -> (p: &'static str)
    ensures
        p@ == date_pattern_text(lang),
        lang == Lang::Tr ==> p@ == "%d.%m.%Y  %H:%M:%S"@,
        lang == Lang::En ==> p@ == "%d %b %Y  %H:%M:%S"@,
{
    match lang {
        Lang::Tr => "%d.%m.%Y  %H:%M:%S",
        Lang::En => "%d %b %Y  %H:%M:%S",
    }
}

/// A modification time (seconds since the epoch) as date and time at the UTC offset
/// `offset` (in seconds; the local offset at that instant), in the format of `lang`;
/// empty exactly when the time lies outside the range chrono can represent.
pub fn date(mtime: i64, offset: i32, lang: Lang) -> (s: String)
    requires
        -86400 < offset < 86400,
    ensures
        s@ == (if in_chrono_range(mtime) {
            offset_date_text(mtime, offset, date_pattern_text(lang))
        } else {
            Seq::empty()
        }),
        s@.len() == 0 <==> !in_chrono_range(mtime),
        in_chrono_range(mtime) ==> date_shape(lang, s@),
{
    match fixed_offset_text(mtime, offset, date_pattern(lang)) {
        Some(text) => text,
        None => String::new(),
    }
}

} // verus!
